//! What the steps of an execution do, each taken by itself.

use vstd::prelude::*;

use crate::mpc::circuit::{all_outputs, arranged, run_order, WireId};
use crate::mpc::config::MpcConfig;
use crate::mpc::error::{ExecutionContextError, ExecutionState};
use crate::mpc::execution::{
    all_rounds, asks_each, continues, is_state_error, lemma_wires_after_none,
    lemma_wires_after_step, lists_wires, next_state, wires_after, ExecutionContext, Step,
};
use crate::mpc::phases::{
    assigned_twice, data_for, filled, finalize_stop, finalize_stop_at, free, gather, ids,
    is_scheme_error, lemma_store_keeps, local_run, local_step, local_stop, network_stop,
    network_stop_at, portion, receives_of, sends_of, store, taken, Exchange, PendingRound,
};
use crate::mpc::scheme::{
    answers, Describe, FinalizePhaseOutput, MpcScheme, NetworkPhaseOutput, Operation,
};
use crate::networking::network::{others, ReceiveRequest};
use crate::networking::network_laws::law_others_are_all_but_one;
use crate::seqs::{contents, join, lemma_join_add, lemma_join_push};

verus! {

/// Lists are joined in order.
pub proof fn law_lists_are_joined_in_order<A>(a: Seq<Seq<A>>, b: Seq<Seq<A>>, list: Seq<A>)
    ensures
        join(Seq::<Seq<A>>::empty()) == Seq::<A>::empty(),
        join(seq![list]) == list,
        join(a + b) == join(a) + join(b),
{
    let none = Seq::<Seq<A>>::empty();
    assert(join(none) =~= Seq::empty());
    assert(none.push(list) =~= seq![list]);
    lemma_join_push(none, list);
    assert(join(none) + list =~= list);
    lemma_join_add(a, b);
}

/// The contents of lists are those of each of them.
pub proof fn law_contents_are_those_of_each_list<A>(lists: Seq<Vec<A>>, i: int)
    ensures
        contents(lists).len() == lists.len(),
        0 <= i < lists.len() ==> contents(lists)[i] == lists[i]@,
{
}

/// Batches answer requests exactly where there is one for each, with as many elements as it asks
/// for, none where it names no number.
pub proof fn law_answers_are_as_long_as_asked<E>(
    requests: Seq<ReceiveRequest<E>>,
    data: Seq<Seq<E>>,
)
    ensures
        answers(requests, data) <==> data.len() == requests.len() && forall|i: int|
            0 <= i < requests.len() ==> (#[trigger] data[i]).len() == match requests[i].count {
                Some(count) => count as nat,
                None => 0nat,
            },
{
    if answers(requests, data) {
        assert forall|i: int| 0 <= i < requests.len() implies (#[trigger] data[i]).len()
            == match requests[i].count {
            Some(count) => count as nat,
            None => 0nat,
        } by {
            assert(requests[i].admits(data[i].len()));
        }
    }
    if data.len() == requests.len() && forall|i: int|
        0 <= i < requests.len() ==> (#[trigger] data[i]).len() == match requests[i].count {
            Some(count) => count as nat,
            None => 0nat,
        } {
        assert forall|i: int| 0 <= i < requests.len() implies (#[trigger] requests[i]).admits(
            data[i].len(),
        ) by {
            assert(data[i].len() == match requests[i].count {
                Some(count) => count as nat,
                None => 0nat,
            });
        }
    }
}

/// The identifiers of wires are those of each of them.
pub proof fn law_wires_have_their_identifiers(wires: Seq<WireId>, w: WireId)
    ensures
        ids(wires).contains(w.0) <==> wires.contains(w),
{
    assert(w == WireId(w.0));
}

/// Wires are filled where each has a value, and free where none has.
pub proof fn law_filled_and_free<W>(values: Map<usize, W>, wires: Seq<WireId>)
    ensures
        filled(values, wires) <==> forall|w: WireId| #[trigger]
            wires.contains(w) ==> values.contains_key(w.0),
        free(values, wires) <==> forall|w: WireId| #[trigger]
            wires.contains(w) ==> !values.contains_key(w.0),
{
    if filled(values, wires) {
        assert forall|w: WireId| #[trigger] wires.contains(w) implies values.contains_key(w.0) by {
            assert(values.contains_key(wires[wires.index_of(w)].0));
        }
    }
    if forall|w: WireId| #[trigger] wires.contains(w) ==> values.contains_key(w.0) {
        assert forall|i: int| 0 <= i < wires.len() implies values.contains_key(
            #[trigger] wires[i].0,
        ) by {
            assert(wires.contains(wires[i]));
        }
    }
    if free(values, wires) {
        assert forall|w: WireId| #[trigger] wires.contains(w) implies !values.contains_key(w.0) by {
            assert(!values.contains_key(wires[wires.index_of(w)].0));
        }
    }
    if forall|w: WireId| #[trigger] wires.contains(w) ==> !values.contains_key(w.0) {
        assert forall|i: int| 0 <= i < wires.len() implies !values.contains_key(
            #[trigger] wires[i].0,
        ) by {
            assert(wires.contains(wires[i]));
        }
    }
}

/// An operation is given the values of the wires that it consumes, in order.
pub proof fn law_operands_are_gathered_in_order<W>(
    values: Map<usize, W>,
    wires: Seq<WireId>,
    i: int,
)
    ensures
        gather(values, wires).len() == wires.len(),
        0 <= i < wires.len() ==> gather(values, wires)[i] == values[wires[i].0],
{
}

/// Each wire that is stored gets its result, and all others keep what they have.
pub proof fn law_results_are_stored_in_order<W>(
    values: Map<usize, W>,
    wires: Seq<WireId>,
    results: Seq<W>,
    i: int,
    w: WireId,
)
    requires
        wires.len() == results.len(),
        wires.no_duplicates(),
    ensures
        0 <= i < wires.len() ==> {
            &&& store(values, wires, results).contains_key(wires[i].0)
            &&& store(values, wires, results)[wires[i].0] == results[i]
        },
        !wires.contains(w) ==> {
            &&& store(values, wires, results).contains_key(w.0) == values.contains_key(w.0)
            &&& store(values, wires, results)[w.0] == values[w.0]
        },
    decreases wires.len(),
{
    assert(w == WireId(w.0));
    if !wires.contains(w) {
        lemma_store_keeps(values, wires, results, w.0);
    }
    if 0 <= i < wires.len() - 1 {
        law_results_are_stored_in_order(values, wires.drop_last(), results.drop_last(), i, w);
        assert(wires[i] != wires[wires.len() - 1]);
        assert(wires[i].0 != wires.last().0);
    }
}

/// A local operation is given the values of its operands, and its outputs, which have no values
/// before, get its results; all other wires keep what they have.
pub proof fn law_local_operations_set_their_outputs<S: MpcScheme>(
    scheme: S,
    op: S::Operation,
    before: (S::Context, Map<usize, S::Wire>),
    after: (S::Context, Map<usize, S::Wire>),
    w: WireId,
)
    requires
        local_step(scheme, op, before, after),
        op.output_wires().no_duplicates(),
    ensures
        op.output_wires().contains(w) ==> !before.1.contains_key(w.0) && after.1.contains_key(w.0),
        !op.output_wires().contains(w) ==> after.1.contains_key(w.0) == before.1.contains_key(w.0)
            && after.1[w.0] == before.1[w.0],
        exists|middle: S::Context, output: NetworkPhaseOutput<S>, result: FinalizePhaseOutput<S>|
            {
                &&& #[trigger] scheme.network_phase(
                    before.0,
                    op,
                    gather(before.1, op.input_wires()),
                    middle,
                    Ok(output),
                )
                &&& #[trigger] scheme.finalize_phase(
                    middle,
                    output.pending,
                    Seq::empty(),
                    after.0,
                    Ok(result),
                )
                &&& forall|i: int|
                    0 <= i < op.output_wires().len() ==> after.1[(
                    #[trigger] op.output_wires()[i]).0] == result.0@[i]
            },
{
    let (middle, output, result) = choose|
        middle: S::Context,
        output: NetworkPhaseOutput<S>,
        result: FinalizePhaseOutput<S>,
    |
        {
            &&& #[trigger] scheme.network_phase(
                before.0,
                op,
                gather(before.1, op.input_wires()),
                middle,
                Ok(output),
            )
            &&& #[trigger] scheme.finalize_phase(
                middle,
                output.pending,
                Seq::empty(),
                after.0,
                Ok(result),
            )
            &&& free(before.1, op.output_wires())
            &&& after.1 == store(before.1, op.output_wires(), result.0@)
        };
    let outs = op.output_wires();
    scheme.outputs_are_consistent(
        op,
        gather(before.1, op.input_wires()),
        output,
        Seq::empty(),
        result,
        (before.0, middle, middle, after.0),
    );
    law_filled_and_free(before.1, outs);
    assert forall|i: int| 0 <= i < outs.len() implies after.1[(#[trigger] outs[i]).0]
        == result.0@[i] by {
        law_results_are_stored_in_order(before.1, outs, result.0@, i, w);
    }
    if outs.contains(w) {
        law_results_are_stored_in_order(before.1, outs, result.0@, outs.index_of(w), w);
    } else {
        law_results_are_stored_in_order(before.1, outs, result.0@, 0, w);
    }
}

/// Each operation of a round gets as many batches as it awaits, from where the one before it
/// stopped.
pub proof fn law_batches_are_handed_out_in_order<E>(
    counts: Seq<usize>,
    data: Seq<Vec<E>>,
    k: int,
    i: int,
)
    requires
        0 <= k < counts.len(),
        taken(counts, k) + counts[k] <= data.len(),
    ensures
        taken(counts, 0) == 0,
        taken(counts, k + 1) == taken(counts, k) + counts[k],
        ({
            let part = portion(contents(data), taken(counts, k), counts[k] as nat);
            &&& data_for(counts, data, k) == join(part)
            &&& part.len() == counts[k]
            &&& 0 <= i < counts[k] ==> part[i] == data[taken(counts, k) + i]@
        }),
{
}

/// A round sends and awaits what its operations ask for, one after the other.
pub proof fn law_exchange_holds_all_requests<S: MpcScheme>(
    exchange: Exchange<S>,
    more: Exchange<S>,
    outputs: Seq<NetworkPhaseOutput<S>>,
    output: NetworkPhaseOutput<S>,
)
    requires
        exchange.carries(outputs),
        more.carries(outputs.push(output)),
    ensures
        outputs.len() == 0 ==> exchange.send@.len() == 0 && exchange.receive@.len() == 0,
        more.send@ == exchange.send@ + output.send_request@,
        more.receive@ == exchange.receive@ + output.receive_request@,
{
    let all = outputs.push(output);
    assert(sends_of(all) =~= sends_of(outputs).push(output.send_request@));
    assert(receives_of(all) =~= receives_of(outputs).push(output.receive_request@));
    lemma_join_push(sends_of(outputs), output.send_request@);
    lemma_join_push(receives_of(outputs), output.receive_request@);
}

/// Before the offline phase nothing is done, and it is done with the offline rounds; the online
/// phase comes after these, and is done with all rounds.
pub proof fn law_phases_hold_their_rounds<S: MpcScheme>(execution: ExecutionContext<S>)
    ensures
        ({
            let circuit = execution.spec_config().spec_circuit();
            let offline = circuit.offline().len() as int;
            let all = offline + circuit.online().len();
            &&& all_rounds(execution.spec_config()) == circuit.offline() + circuit.online()
            &&& execution.state() == ExecutionState::NewBorn ==> execution.base() == 0
                && execution.end() == 0
            &&& execution.state() == ExecutionState::Handshaked ==> execution.base() == 0
                && execution.end() == offline
            &&& execution.state() == ExecutionState::FinishedOffline ==> execution.base() == offline
                && execution.end() == offline
            &&& execution.state() == ExecutionState::ReadyOnline ==> execution.base() == offline
                && execution.end() == all
            &&& execution.state() == ExecutionState::Finished ==> execution.base() == all
                && execution.end() == all
        }),
        next_state(ExecutionState::Handshaked) == ExecutionState::FinishedOffline,
        next_state(ExecutionState::ReadyOnline) == ExecutionState::Finished,
{
}

/// A phase finishes exactly where all its rounds are done: the offline phase leads to the inputs,
/// the online phase to the end. Until then the state stays.
pub proof fn law_phases_finish_after_their_rounds<S: MpcScheme>(
    before: ExecutionContext<S>,
    k: int,
    tally: (int, int),
    after: ExecutionContext<S>,
    result: Result<Step<S>, ExecutionContextError>,
)
    requires
        continues(before, k, tally, after, result),
    ensures
        after.spec_config() == before.spec_config(),
        before.state() == ExecutionState::Handshaked ==> {
            let done = k == before.spec_config().spec_circuit().offline().len();
            &&& done <==> result is Ok && result->Ok_0 is Finished
            &&& done ==> after.state() == ExecutionState::FinishedOffline
            &&& !done ==> after.state() == ExecutionState::Handshaked
        },
        before.state() == ExecutionState::ReadyOnline ==> {
            let done = k == before.spec_config().spec_circuit().online().len();
            &&& done <==> result is Ok && result->Ok_0 is Finished
            &&& done ==> after.state() == ExecutionState::Finished
            &&& !done ==> after.state() == ExecutionState::ReadyOnline
        },
        result matches Ok(Step::Finished { sent, received }) ==> sent == tally.0 && received
            == tally.1 && after.wires() == before.wires(),
{
}

/// The wires that have values after some rounds are those that these rounds produce: none at
/// first, and with each round those of its operations.
pub proof fn law_rounds_add_their_wires<S: MpcScheme>(config: MpcConfig<S>, k: int, w: WireId)
    requires
        0 <= k < all_rounds(config).len(),
    ensures
        !wires_after(config, 0).contains(w.0),
        wires_after(config, k + 1).contains(w.0) <==> wires_after(config, k).contains(w.0)
            || all_outputs(all_rounds(config)[k].local()).contains(w) || all_outputs(
            all_rounds(config)[k].network(),
        ).contains(w),
        wires_after(config, k).contains(w.0) <==> all_outputs(
            run_order(all_rounds(config).take(k)),
        ).contains(w),
{
    assert(w == WireId(w.0));
    lemma_wires_after_none(config);
    lemma_wires_after_step(config, k);
}

/// A handshake asks each other party, and nobody else, for one digest.
pub proof fn law_handshake_asks_every_other_party<T>(
    requests: Seq<ReceiveRequest<T>>,
    n: nat,
    me: int,
    q: usize,
)
    requires
        asks_each(requests, others(n, me)),
        0 <= me < n,
    ensures
        requests.len() == n - 1,
        q < n && q != me <==> exists|i: int|
            0 <= i < requests.len() && (#[trigger] requests[i]).from == q,
        forall|i: int| 0 <= i < requests.len() ==> (#[trigger] requests[i]).count == Some(1usize),
{
    let parties = others(n, me);
    law_others_are_all_but_one(n, me, q as int, 0, 0);
    if parties.contains(q as int) {
        let i = parties.index_of(q as int);
        assert(requests[i].from == parties[i]);
    }
    if exists|i: int| 0 <= i < requests.len() && (#[trigger] requests[i]).from == q {
        let i = choose|i: int| 0 <= i < requests.len() && (#[trigger] requests[i]).from == q;
        assert(parties[i] == q);
        assert(parties.contains(q as int));
    }
}

/// The wires that are listed are wires with their values that the predicate accepts, in ascending
/// order, and every wire that it does not refuse is listed.
pub proof fn law_accepted_wires_are_listed<W, P: FnMut(&W) -> bool>(
    wires: Map<usize, W>,
    predicate: P,
    listed: Seq<(usize, &W)>,
    id: usize,
    i: int,
    j: int,
)
    requires
        lists_wires(wires, predicate, listed),
    ensures
        0 <= i < listed.len() ==> {
            &&& wires.contains_key(listed[i].0)
            &&& *listed[i].1 == wires[listed[i].0]
            &&& call_ensures(predicate, (listed[i].1,), true)
        },
        0 <= i < j < listed.len() ==> listed[i].0 < listed[j].0,
        wires.contains_key(id) && !call_ensures(predicate, (&wires[id],), false) ==> exists|k: int|
            0 <= k < listed.len() && (#[trigger] listed[k]).0 == id && *listed[k].1 == wires[id],
{
    if wires.contains_key(id) && !call_ensures(predicate, (&wires[id],), false) {
        assert(listed.contains((id, &wires[id])));
        let k = listed.index_of((id, &wires[id]));
        assert(listed[k].0 == id);
    }
}

/// The errors of an execution say which step was refused in which state, or what failed.
pub proof fn law_errors_say_what_happened(
    error: ExecutionContextError,
    op: Seq<char>,
    state: ExecutionState,
    text: Seq<char>,
)
    ensures
        is_state_error(error, op, state) <==> error is StateError && error->StateError_op@ == op
            && error->StateError_state == state,
        is_scheme_error(error, text) <==> error is SchemeError && error->SchemeError_phase@
            == "scheme phase"@ && error->SchemeError_msg@ == text,
        assigned_twice() == "a wire has a value already"@,
{
}

/// The scheme establishes the context for the party, the number of parties and the circuit of the
/// configuration.
pub proof fn law_context_is_established_for_the_configuration<S: MpcScheme>(
    execution: ExecutionContext<S>,
    result: Result<S::Context, S::EstablishContextError>,
)
    ensures
        execution.establishes(result) <==>
            execution.spec_config().spec_circuit().spec_scheme().established(
            execution.spec_config().id(),
            execution.spec_config().parties(),
            execution.spec_config().spec_circuit(),
            result,
        ),
{
}

/// Where a local operation stops a round, those before it have run, and the error is the reason of
/// the scheme, or that one of its outputs has a value already.
pub proof fn law_stopped_local_operation_is_reported<S: MpcScheme>(
    scheme: S,
    ops: Seq<S::Operation>,
    k: int,
    context: S::Context,
    before: (S::Context, Map<usize, S::Wire>),
    after: (S::Context, Map<usize, S::Wire>),
    error: ExecutionContextError,
)
    requires
        local_stop(scheme, ops, k, context, before, after, error),
    ensures
        0 <= k < ops.len(),
        local_run(scheme, ops.take(k), before, (context, after.1)),
        error is SchemeError,
        error->SchemeError_phase@ == "scheme phase"@,
        ({
            let inputs = gather(after.1, ops[k].input_wires());
            let msg = error->SchemeError_msg@;
            ||| msg == "a wire has a value already"@ && !free(after.1, ops[k].output_wires())
            ||| exists|reason: S::NetworkPhaseError| #[trigger]
                scheme.network_phase(context, ops[k], inputs, after.0, Err(reason)) && msg
                    == reason.text()
            ||| exists|
                middle: S::Context,
                output: NetworkPhaseOutput<S>,
                reason: S::FinalizePhaseError,
            |
                {
                    &&& #[trigger] scheme.network_phase(context, ops[k], inputs, middle, Ok(output))
                    &&& #[trigger] scheme.finalize_phase(
                        middle,
                        output.pending,
                        Seq::empty(),
                        after.0,
                        Err(reason),
                    )
                    &&& msg == reason.text()
                }
        }),
{
}

/// Where the network phase of an operation stops a round, the error is the reason of the scheme.
pub proof fn law_stopped_network_phase_is_reported<S: MpcScheme>(
    scheme: S,
    ops: Seq<S::Operation>,
    values: Map<usize, S::Wire>,
    before: S::Context,
    after: S::Context,
    error: ExecutionContextError,
)
    requires
        network_stop(scheme, ops, values, before, after, error),
    ensures
        exists|k: int, context: S::Context, reason: S::NetworkPhaseError|
            0 <= k < ops.len() && #[trigger] scheme.network_phase(
                context,
                ops[k],
                gather(values, ops[k].input_wires()),
                after,
                Err(reason),
            ) && error is SchemeError && error->SchemeError_phase@ == "scheme phase"@
                && error->SchemeError_msg@ == reason.text(),
{
    let (contexts, outputs, reason) = choose|
        contexts: Seq<S::Context>,
        outputs: Seq<NetworkPhaseOutput<S>>,
        reason: S::NetworkPhaseError,
    |
        #![trigger network_stop_at(scheme, ops, values, contexts, outputs, reason, after)]
        {
            &&& network_stop_at(scheme, ops, values, contexts, outputs, reason, after)
            &&& contexts[0] == before
            &&& is_scheme_error(error, reason.text())
        };
    let k = outputs.len() as int;
    assert(scheme.network_phase(
        contexts[k],
        ops[k],
        gather(values, ops[k].input_wires()),
        after,
        Err(reason),
    ));
}

/// Where the finalize phase of an operation stops a round, the error is the reason of the scheme.
pub proof fn law_stopped_finalize_phase_is_reported<S: MpcScheme>(
    scheme: S,
    round: PendingRound<S>,
    data: Seq<Vec<S::NetworkElement>>,
    before: S::Context,
    after: S::Context,
    error: ExecutionContextError,
)
    requires
        finalize_stop(scheme, round, data, before, after, error),
    ensures
        exists|k: int, context: S::Context, reason: S::FinalizePhaseError|
            0 <= k < round.pending@.len() && #[trigger] scheme.finalize_phase(
                context,
                round.pending@[k],
                data_for(round.counts@, data, k),
                after,
                Err(reason),
            ) && error is SchemeError && error->SchemeError_phase@ == "scheme phase"@
                && error->SchemeError_msg@ == reason.text(),
{
    let (contexts, results, reason) = choose|
        contexts: Seq<S::Context>,
        results: Seq<FinalizePhaseOutput<S>>,
        reason: S::FinalizePhaseError,
    |
        #![trigger finalize_stop_at(scheme, round, data, contexts, results, reason, after)]
        {
            &&& finalize_stop_at(scheme, round, data, contexts, results, reason, after)
            &&& contexts[0] == before
            &&& is_scheme_error(error, reason.text())
        };
    let k = results.len() as int;
    assert(scheme.finalize_phase(
        contexts[k],
        round.pending@[k],
        data_for(round.counts@, data, k),
        after,
        Err(reason),
    ));
}

/// A configuration can be run exactly where its party is one of all and its circuit can be run.
pub proof fn law_configurations_of_own_parties<S: MpcScheme>(config: MpcConfig<S>)
    ensures
        config.well_formed() <==> config.id() < config.parties()
            && config.spec_circuit().well_formed(),
        config.spec_circuit().well_formed() <==>
            config.spec_circuit().spec_scheme().usable() && arranged(
            config.spec_circuit().spec_scheme(),
            config.spec_circuit().offline(),
            config.spec_circuit().online(),
        ),
{
}

} // verus!
