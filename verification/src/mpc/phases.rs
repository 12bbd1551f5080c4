//! Runs the operations of a round on the wires of one party.

use std::collections::{HashMap, VecDeque};

use vstd::prelude::*;

use crate::mpc::circuit::{all_outputs, outputs_of, Round, WireId};
use crate::mpc::error::ExecutionContextError;
use crate::mpc::scheme::{
    answers, Describe, FinalizePhaseOutput, MpcScheme, NetworkPhaseOutput, Operation,
};
use crate::networking::network::{ReceiveRequest, SendRequest};
use crate::seqs::{
    contents, join, lemma_join_index, lemma_join_prefix, lemma_join_push, lemma_join_take,
    offset,
};

verus! {

broadcast use vstd::std_specs::hash::group_hash_axioms;

/// The identifiers of `wires`.
pub open spec fn ids(wires: Seq<WireId>) -> Set<usize> {
    Set::new(|w: usize| wires.contains(WireId(w)))
}

/// Whether all of `wires` have values.
pub open spec fn filled<W>(values: Map<usize, W>, wires: Seq<WireId>) -> bool {
    forall|i: int| 0 <= i < wires.len() ==> values.contains_key(#[trigger] wires[i].0)
}

/// Whether none of `wires` has a value.
pub open spec fn free<W>(values: Map<usize, W>, wires: Seq<WireId>) -> bool {
    forall|i: int| 0 <= i < wires.len() ==> !values.contains_key(#[trigger] wires[i].0)
}

/// The values of `wires`.
pub open spec fn gather<W>(values: Map<usize, W>, wires: Seq<WireId>) -> Seq<W> {
    Seq::new(wires.len(), |i: int| values[wires[i].0])
}

/// `values`, with each of `wires` set to its result.
pub open spec fn store<W>(values: Map<usize, W>, wires: Seq<WireId>, results: Seq<W>) -> Map<usize, W>
    decreases wires.len(),
{
    if wires.len() == 0 {
        values
    } else {
        store(values, wires.drop_last(), results.drop_last()).insert(
            wires.last().0,
            results.last(),
        )
    }
}

/// Stored wires have values, beside those that had one.
pub proof fn lemma_store_domain<W>(values: Map<usize, W>, wires: Seq<WireId>, results: Seq<W>)
    requires
        wires.len() == results.len(),
    ensures
        store(values, wires, results).dom() == values.dom() + ids(wires),
    decreases wires.len(),
{
    if wires.len() == 0 {
        assert(store(values, wires, results).dom() =~= values.dom() + ids(wires));
    } else {
        let rest = wires.drop_last();
        lemma_store_domain(values, rest, results.drop_last());
        assert forall|w: usize| ids(wires).contains(w) <==> ids(rest).contains(w) || w == wires.last().0 by {
            if wires.contains(WireId(w)) {
                let i = wires.index_of(WireId(w));
                if i < rest.len() {
                    assert(rest[i] == WireId(w));
                }
            }
            if rest.contains(WireId(w)) {
                assert(wires[rest.index_of(WireId(w))] == WireId(w));
            }
            assert(wires.last() == WireId(wires.last().0));
            assert(wires[wires.len() - 1] == wires.last());
        }
        assert(store(values, wires, results).dom() =~= values.dom() + ids(wires));
    }
}

/// The values of the wires that an operation consumes.
fn fetch<'a, W>(values: &'a HashMap<usize, W>, wires: &Vec<WireId>) -> (inputs: Vec<&'a W>)
    requires
        filled(values@, wires@),
    ensures
        inputs@.len() == wires@.len(),
        inputs@.unref() == gather(values@, wires@),
{
    let mut inputs: Vec<&'a W> = Vec::new();
    let mut i: usize = 0;
    while i < wires.len()
        invariant
            filled(values@, wires@),
            i <= wires@.len(),
            inputs@.len() == i,
            forall|j: int| 0 <= j < i ==> *(#[trigger] inputs@[j]) == values@[wires@[j].0],
        decreases wires@.len() - i,
    {
        assert(values@.contains_key(wires@[i as int].0));
        let value = values.get(&wires[i].0).unwrap();
        inputs.push(value);
        i = i + 1;
    }
    assert(inputs@.unref() =~= gather(values@, wires@));
    inputs
}

/// Whether none of the wires has a value.
fn all_free<W>(values: &HashMap<usize, W>, wires: &Vec<WireId>) -> (b: bool)
    ensures
        b == free(values@, wires@),
{
    let mut i: usize = 0;
    while i < wires.len()
        invariant
            i <= wires@.len(),
            forall|j: int| 0 <= j < i ==> !values@.contains_key(#[trigger] wires@[j].0),
        decreases wires@.len() - i,
    {
        if values.contains_key(&wires[i].0) {
            assert(values@.contains_key(wires@[i as int].0));
            return false;
        }
        i = i + 1;
    }
    true
}

/// Sets the wires that an operation produces.
fn put<W>(values: &mut HashMap<usize, W>, wires: &Vec<WireId>, results: Vec<W>)
    requires
        wires@.len() == results@.len(),
    ensures
        final(values)@ == store(old(values)@, wires@, results@),
{
    let ghost before = values@;
    let n = wires.len();
    let mut i: usize = 0;
    assert(store(before, wires@.take(0), results@.take(0)) =~= before);
    for result in iter: results
        invariant
            i == iter.index(),
            n == wires@.len(),
            n == iter.seq().len(),
            values@ == store(before, wires@.take(i as int), iter.seq().take(i as int)),
    {
        proof {
            assert(wires@.take(i + 1).drop_last() =~= wires@.take(i as int));
            assert(iter.seq().take(i + 1).drop_last() =~= iter.seq().take(i as int));
        }
        values.insert(wires[i].0, result);
        i = i + 1;
    }
    assert(wires@.take(i as int) =~= wires@);
    assert(results@.take(i as int) =~= results@);
}

} // verus!

verus! {

/// Whether a local operation may take the context and the wires from `before` to `after`.
pub open spec fn local_step<S: MpcScheme>(
    scheme: S,
    op: S::Operation,
    before: (S::Context, Map<usize, S::Wire>),
    after: (S::Context, Map<usize, S::Wire>),
) -> bool {
    exists|middle: S::Context, output: NetworkPhaseOutput<S>, result: FinalizePhaseOutput<S>|
        {
            &&& #[trigger] scheme.network_phase(
                before.0,
                op,
                gather(before.1, op.input_wires()),
                middle,
                Ok(output),
            )
            &&& #[trigger] scheme.finalize_phase(
                middle,
                output.pending,
                Seq::empty(),
                after.0,
                Ok(result),
            )
            &&& free(before.1, op.output_wires())
            &&& after.1 == store(before.1, op.output_wires(), result.0@)
        }
}

/// What is said of an operation whose output has a value already.
pub open spec fn assigned_twice() -> Seq<char> {
    "a wire has a value already"@
}

/// The error of an operation whose output has a value already.
pub(crate) fn assigned_twice_error() -> (r: ExecutionContextError)
    ensures
        is_scheme_error(r, assigned_twice()),
{
    ExecutionContextError::SchemeError {
        phase: "scheme phase".to_owned(),
        msg: "a wire has a value already".to_owned(),
    }
}

/// Whether a local operation may fail with the given text, and leave the context at `after`: in one
/// of its phases, or because one of its outputs has a value already.
pub open spec fn local_failure<S: MpcScheme>(
    scheme: S,
    op: S::Operation,
    before: (S::Context, Map<usize, S::Wire>),
    after: S::Context,
    text: Seq<char>,
) -> bool {
    let inputs = gather(before.1, op.input_wires());
    ||| exists|error: S::NetworkPhaseError| #[trigger]
        scheme.network_phase(before.0, op, inputs, after, Err(error)) && text == error.text()
    ||| exists|middle: S::Context, output: NetworkPhaseOutput<S>, error: S::FinalizePhaseError|
        {
            &&& #[trigger] scheme.network_phase(before.0, op, inputs, middle, Ok(output))
            &&& #[trigger] scheme.finalize_phase(
                middle,
                output.pending,
                Seq::empty(),
                after,
                Err(error),
            )
            &&& text == error.text()
        }
    ||| exists|middle: S::Context, output: NetworkPhaseOutput<S>, result: FinalizePhaseOutput<S>|
        {
            &&& #[trigger] scheme.network_phase(before.0, op, inputs, middle, Ok(output))
            &&& #[trigger] scheme.finalize_phase(
                middle,
                output.pending,
                Seq::empty(),
                after,
                Ok(result),
            )
            &&& !free(before.1, op.output_wires())
            &&& text == assigned_twice()
        }
}

/// Whether `states` are what the context and the wires may be between the operations `ops`.
pub open spec fn local_trace<S: MpcScheme>(
    scheme: S,
    ops: Seq<S::Operation>,
    states: Seq<(S::Context, Map<usize, S::Wire>)>,
) -> bool {
    &&& states.len() == ops.len() + 1
    &&& forall|k: int|
        0 <= k < ops.len() ==> local_step(scheme, #[trigger] ops[k], states[k], states[k + 1])
}

/// Whether the local operations `ops` may take the context and the wires from `before` to `after`.
pub open spec fn local_run<S: MpcScheme>(
    scheme: S,
    ops: Seq<S::Operation>,
    before: (S::Context, Map<usize, S::Wire>),
    after: (S::Context, Map<usize, S::Wire>),
) -> bool {
    exists|states: Seq<(S::Context, Map<usize, S::Wire>)>|
        {
            &&& #[trigger] local_trace(scheme, ops, states)
            &&& states[0] == before
            &&& states.last() == after
        }
}

/// The error of a scheme, as the execution reports it.
pub open spec fn is_scheme_error(error: ExecutionContextError, text: Seq<char>) -> bool {
    error matches ExecutionContextError::SchemeError { phase, msg } && phase@ == "scheme phase"@
        && msg@ == text
}

/// The error of a scheme, as the execution reports it.
pub(crate) fn scheme_error<E: Describe>(error: &E) -> (r: ExecutionContextError)
    ensures
        is_scheme_error(r, error.text()),
{
    ExecutionContextError::SchemeError { phase: "scheme phase".to_owned(), msg: error.describe() }
}

/// Whether each operation finds the wires it consumes in `values` or among the outputs of the
/// operations before it, and the outputs of all are distinct.
pub open spec fn feasible<O: Operation, W>(ops: Seq<O>, values: Map<usize, W>) -> bool {
    &&& all_outputs(ops).no_duplicates()
    &&& forall|j: int, w: WireId|
        0 <= j < ops.len() && #[trigger] ops[j].input_wires().contains(w) ==> values.contains_key(
            w.0,
        ) || all_outputs(ops.take(j)).contains(w)
}

/// Whether the local operations before `k` may have run, leaving the context at `context`, and the
/// operation `k` may then have failed with the given error.
pub open spec fn local_stop<S: MpcScheme>(
    scheme: S,
    ops: Seq<S::Operation>,
    k: int,
    context: S::Context,
    before: (S::Context, Map<usize, S::Wire>),
    after: (S::Context, Map<usize, S::Wire>),
    error: ExecutionContextError,
) -> bool {
    &&& 0 <= k < ops.len()
    &&& local_run(scheme, ops.take(k), before, (context, after.1))
    &&& exists|text: Seq<char>|
        #[trigger] local_failure(scheme, ops[k], (context, after.1), after.0, text)
            && is_scheme_error(error, text)
}

/// Whether the outcome of the local operations `ops` is one that the scheme allows: they have
/// run, or the first one that failed, after those before it had run, is the reported error.
pub open spec fn local_outcome<S: MpcScheme>(
    scheme: S,
    ops: Seq<S::Operation>,
    before: (S::Context, Map<usize, S::Wire>),
    after: (S::Context, Map<usize, S::Wire>),
    result: Result<(), ExecutionContextError>,
) -> bool {
    match result {
        Ok(_) => local_run(scheme, ops, before, after),
        Err(error) => exists|k: int, context: S::Context| #[trigger]
            local_stop(scheme, ops, k, context, before, after, error),
    }
}

pub(crate) proof fn lemma_outputs_take<O: Operation>(ops: Seq<O>, j: int)
    requires
        0 <= j < ops.len(),
    ensures
        all_outputs(ops.take(j + 1)) == all_outputs(ops.take(j)) + ops[j].output_wires(),
{
    assert(outputs_of(ops.take(j + 1)) =~= outputs_of(ops.take(j)).push(ops[j].output_wires()));
    lemma_join_push(outputs_of(ops.take(j)), ops[j].output_wires());
}

pub(crate) proof fn lemma_ids_add(a: Seq<WireId>, b: Seq<WireId>)
    ensures
        ids(a + b) == ids(a) + ids(b),
{
    assert forall|w: usize| ids(a + b).contains(w) <==> (ids(a) + ids(b)).contains(w) by {
        let x = WireId(w);
        if a.contains(x) {
            assert((a + b)[a.index_of(x)] == x);
        }
        if b.contains(x) {
            assert((a + b)[a.len() + b.index_of(x)] == x);
        }
    }
    assert(ids(a + b) =~= ids(a) + ids(b));
}

/// Runs the local operations of a round, one after the other.
pub fn do_local_operations<S: MpcScheme>(
    scheme: &S,
    context: &mut S::Context,
    wire_contents: &mut HashMap<usize, S::Wire>,
    ops: &[S::Operation],
) -> (r: Result<(), ExecutionContextError>)
    requires
        scheme.usable(),
        forall|j: int| 0 <= j < ops@.len() ==> scheme.local(#[trigger] ops@[j]),
        feasible(ops@, old(wire_contents)@),
    ensures
        local_outcome(
            *scheme,
            ops@,
            (*old(context), old(wire_contents)@),
            (*final(context), final(wire_contents)@),
            r,
        ),
        r is Ok ==> final(wire_contents)@.dom() == old(wire_contents)@.dom() + ids(all_outputs(ops@)),
        old(wire_contents)@.dom().subset_of(final(wire_contents)@.dom()),
        final(wire_contents)@.dom().subset_of(old(wire_contents)@.dom() + ids(all_outputs(ops@))),
{
    let ghost before = (*context, wire_contents@);
    let ghost mut states: Seq<(S::Context, Map<usize, S::Wire>)> = seq![before];
    let mut j: usize = 0;
    proof {
        assert(ops@.take(0) =~= Seq::empty());
        assert(outputs_of(ops@.take(0)) =~= Seq::empty());
        assert(wire_contents@.dom() =~= before.1.dom() + ids(all_outputs(ops@.take(0))));
    }
    while j < ops.len()
        invariant
            before == (*old(context), old(wire_contents)@),
            scheme.usable(),
            forall|j: int| 0 <= j < ops@.len() ==> scheme.local(#[trigger] ops@[j]),
            feasible(ops@, before.1),
            j <= ops@.len(),
            local_trace(*scheme, ops@.take(j as int), states),
            states[0] == before,
            states.last() == (*context, wire_contents@),
            wire_contents@.dom() == before.1.dom() + ids(all_outputs(ops@.take(j as int))),
        decreases ops@.len() - j,
    {
        let op = &ops[j];
        let ghost at = (*context, wire_contents@);
        let wires = op.inputs();
        proof {
            assert(filled(wire_contents@, wires@)) by {
                assert forall|i: int| 0 <= i < wires@.len() implies wire_contents@.contains_key(
                    #[trigger] wires@[i].0,
                ) by {
                    assert(ops@[j as int].input_wires().contains(wires@[i]));
                    assert(wires@[i] == WireId(wires@[i].0));
                }
            }
            assert(local_run(*scheme, ops@.take(j as int), before, at));
            lemma_domain_within(ops@, j as int);
        }
        let inputs = fetch(wire_contents, &wires);
        let output = match scheme.do_network_phase(context, op, inputs) {
            Ok(output) => output,
            Err(error) => {
                let failure = scheme_error(&error);
                proof {
                    let k = j as int;
                    let after = (*context, wire_contents@);
                    let text = error.text();
                    assert(is_scheme_error(failure, text));
                    assert(local_run(*scheme, ops@.take(k), before, (at.0, after.1)));
                    assert(local_failure(*scheme, ops@[k], (at.0, after.1), after.0, text));
                    assert(local_stop(*scheme, ops@, k, at.0, before, after, failure));
                }
                return Err(failure);
            },
        };
        let ghost middle = *context;
        let ghost out = output;
        proof {
            let none = Seq::<Seq<S::NetworkElement>>::empty();
            scheme.network_phase_is_consistent(
                at.0,
                *op,
                gather(at.1, op.input_wires()),
                middle,
                output,
            );
            assert(answers(output.receive_request@, none));
            assert(join(none) =~= Seq::empty());
        }
        let nothing: Vec<S::NetworkElement> = Vec::new();
        assert(nothing@ =~= Seq::empty());
        let result = match scheme.do_finalize_phase(context, output.pending, nothing) {
            Ok(result) => result,
            Err(error) => {
                let failure = scheme_error(&error);
                proof {
                    assert(scheme.network_phase(
                        at.0,
                        *op,
                        gather(at.1, op.input_wires()),
                        middle,
                        Ok(out),
                    ));
                    let k = j as int;
                    let after = (*context, wire_contents@);
                    let text = error.text();
                    assert(is_scheme_error(failure, text));
                    assert(local_run(*scheme, ops@.take(k), before, (at.0, after.1)));
                    assert(local_failure(*scheme, ops@[k], (at.0, after.1), after.0, text));
                    assert(local_stop(*scheme, ops@, k, at.0, before, after, failure));
                }
                return Err(failure);
            },
        };
        proof {
            scheme.outputs_are_consistent(
                *op,
                gather(at.1, op.input_wires()),
                out,
                Seq::empty(),
                result,
                (at.0, middle, middle, *context),
            );
        }
        let ghost res = result;
        let outputs = op.outputs();
        if !all_free(wire_contents, &outputs) {
            let failure = assigned_twice_error();
            proof {
                let k = j as int;
                let after = (*context, wire_contents@);
                assert(scheme.network_phase(
                    at.0,
                    *op,
                    gather(at.1, op.input_wires()),
                    middle,
                    Ok(out),
                ));
                assert(scheme.finalize_phase(middle, out.pending, Seq::empty(), after.0, Ok(res)));
                assert(local_run(*scheme, ops@.take(k), before, (at.0, after.1)));
                assert(local_failure(
                    *scheme,
                    ops@[k],
                    (at.0, after.1),
                    after.0,
                    assigned_twice(),
                ));
                assert(local_stop(*scheme, ops@, k, at.0, before, after, failure));
            }
            return Err(failure);
        }
        put(wire_contents, &outputs, result.0);
        proof {
            let next = (*context, wire_contents@);
            assert(scheme.finalize_phase(middle, out.pending, Seq::empty(), next.0, Ok(res)));
            assert(local_step(*scheme, ops@[j as int], at, next));
            let more = states.push(next);
            assert forall|k: int| 0 <= k < ops@.take(j + 1).len() implies local_step(
                *scheme,
                #[trigger] ops@.take(j + 1)[k],
                more[k],
                more[k + 1],
            ) by {
                if k < j {
                    assert(ops@.take(j as int)[k] == ops@[k]);
                }
            }
            states = more;
            lemma_store_domain(at.1, op.output_wires(), res.0@);
            lemma_outputs_take(ops@, j as int);
            lemma_ids_add(all_outputs(ops@.take(j as int)), op.output_wires());
            assert(wire_contents@.dom() =~= before.1.dom() + ids(all_outputs(ops@.take(j + 1))));
        }
        j = j + 1;
    }
    proof {
        assert(ops@.take(j as int) =~= ops@);
    }
    Ok(())
}

/// The outputs of the first operations are among the outputs of all.
proof fn lemma_domain_within<O: Operation>(ops: Seq<O>, j: int)
    requires
        0 <= j <= ops.len(),
    ensures
        ids(all_outputs(ops.take(j))).subset_of(ids(all_outputs(ops))),
{
    lemma_join_prefix(outputs_of(ops), j);
    assert(outputs_of(ops).take(j) =~= outputs_of(ops.take(j)));
    assert forall|w: usize| ids(all_outputs(ops.take(j))).contains(w) implies ids(
        all_outputs(ops),
    ).contains(w) by {
        let part = all_outputs(ops.take(j));
        let i = part.index_of(WireId(w));
        assert(all_outputs(ops)[i] == part[i]);
    }
}

} // verus!

verus! {

/// Whether `outputs` are what the network operations `ops` may ask of the network, where the
/// context passes through `contexts`.
pub open spec fn network_trace<S: MpcScheme>(
    scheme: S,
    ops: Seq<S::Operation>,
    values: Map<usize, S::Wire>,
    contexts: Seq<S::Context>,
    outputs: Seq<NetworkPhaseOutput<S>>,
) -> bool {
    &&& contexts.len() == ops.len() + 1
    &&& outputs.len() == ops.len()
    &&& forall|k: int|
        0 <= k < ops.len() ==> scheme.network_phase(
            contexts[k],
            #[trigger] ops[k],
            gather(values, ops[k].input_wires()),
            contexts[k + 1],
            Ok(outputs[k]),
        )
}

/// The network operations of a round, between what they ask of the network and what it brings.
#[verifier::reject_recursive_types(S)]
pub struct PendingRound<S: MpcScheme> {
    /// The operations, waiting for what the network brings.
    pub pending: VecDeque<S::Pending>,
    /// How many batches each of them awaits.
    pub counts: VecDeque<usize>,
}

/// What a round sends to, and awaits from, the other parties.
#[verifier::reject_recursive_types(S)]
pub struct Exchange<S: MpcScheme> {
    /// What goes to the other parties.
    pub send: Vec<SendRequest<'static, S::NetworkElement>>,
    /// What is awaited from the other parties.
    pub receive: Vec<ReceiveRequest<S::NetworkElement>>,
}

/// The requests of each of `outputs` to send.
pub open spec fn sends_of<S: MpcScheme>(outputs: Seq<NetworkPhaseOutput<S>>) -> Seq<
    Seq<SendRequest<'static, S::NetworkElement>>,
> {
    Seq::new(outputs.len(), |k: int| outputs[k].send_request@)
}

/// The requests of each of `outputs` to receive.
pub open spec fn receives_of<S: MpcScheme>(outputs: Seq<NetworkPhaseOutput<S>>) -> Seq<
    Seq<ReceiveRequest<S::NetworkElement>>,
> {
    Seq::new(outputs.len(), |k: int| outputs[k].receive_request@)
}

impl<S: MpcScheme> PendingRound<S> {
    /// Whether this is what `outputs` leave waiting.
    pub open spec fn holds(&self, outputs: Seq<NetworkPhaseOutput<S>>) -> bool {
        &&& self.pending@ == Seq::new(outputs.len(), |k: int| outputs[k].pending)
        &&& self.counts@.len() == outputs.len()
        &&& forall|k: int|
            0 <= k < outputs.len() ==> #[trigger] self.counts@[k]
                == outputs[k].receive_request@.len()
    }
}

impl<S: MpcScheme> Exchange<S> {
    /// Whether this is what `outputs` ask of the network, one operation after the other.
    pub open spec fn carries(&self, outputs: Seq<NetworkPhaseOutput<S>>) -> bool {
        &&& self.send@ == join(sends_of(outputs))
        &&& self.receive@ == join(receives_of(outputs))
    }
}

/// Whether the network operations `ops` may leave a round pending and ask for an exchange.
pub open spec fn network_start<S: MpcScheme>(
    scheme: S,
    ops: Seq<S::Operation>,
    values: Map<usize, S::Wire>,
    before: S::Context,
    after: S::Context,
    round: PendingRound<S>,
    exchange: Exchange<S>,
) -> bool {
    exists|contexts: Seq<S::Context>, outputs: Seq<NetworkPhaseOutput<S>>|
        {
            &&& #[trigger] network_trace(scheme, ops, values, contexts, outputs)
            &&& contexts[0] == before
            &&& contexts.last() == after
            &&& round.holds(outputs)
            &&& exchange.carries(outputs)
        }
}

/// Whether the network phase of an operation of `ops`, after those before it, may fail with the
/// given error.
pub open spec fn network_stop<S: MpcScheme>(
    scheme: S,
    ops: Seq<S::Operation>,
    values: Map<usize, S::Wire>,
    before: S::Context,
    after: S::Context,
    error: ExecutionContextError,
) -> bool {
    exists|
        contexts: Seq<S::Context>,
        outputs: Seq<NetworkPhaseOutput<S>>,
        reason: S::NetworkPhaseError,
    |
        #![trigger network_stop_at(scheme, ops, values, contexts, outputs, reason, after)]
        {
            &&& network_stop_at(scheme, ops, values, contexts, outputs, reason, after)
            &&& contexts[0] == before
            &&& is_scheme_error(error, reason.text())
        }
}

/// Whether the operations of `ops` that have `outputs` may have run, and the next one may then
/// have failed for `reason`.
pub open spec fn network_stop_at<S: MpcScheme>(
    scheme: S,
    ops: Seq<S::Operation>,
    values: Map<usize, S::Wire>,
    contexts: Seq<S::Context>,
    outputs: Seq<NetworkPhaseOutput<S>>,
    reason: S::NetworkPhaseError,
    after: S::Context,
) -> bool {
    let k = outputs.len() as int;
    &&& k < ops.len()
    &&& network_trace(scheme, ops.take(k), values, contexts, outputs)
    &&& scheme.network_phase(
        contexts[k],
        ops[k],
        gather(values, ops[k].input_wires()),
        after,
        Err(reason),
    )
}

/// Runs the network phases of the network operations of a round, and gathers what they ask of
/// the network.
pub fn start_network_operations<S: MpcScheme>(
    scheme: &S,
    context: &mut S::Context,
    wire_contents: &HashMap<usize, S::Wire>,
    ops: &[S::Operation],
) -> (r: Result<(PendingRound<S>, Exchange<S>), ExecutionContextError>)
    requires
        scheme.usable(),
        forall|j: int| 0 <= j < ops@.len() ==> filled(wire_contents@, (#[trigger] ops@[j]).input_wires()),
    ensures
        match r {
            Ok(started) => network_start(
                *scheme,
                ops@,
                wire_contents@,
                *old(context),
                *final(context),
                started.0,
                started.1,
            ),
            Err(error) => network_stop(
                *scheme,
                ops@,
                wire_contents@,
                *old(context),
                *final(context),
                error,
            ),
        },
{
    let mut pending: VecDeque<S::Pending> = VecDeque::new();
    let mut counts: VecDeque<usize> = VecDeque::new();
    let mut send: Vec<SendRequest<'static, S::NetworkElement>> = Vec::new();
    let mut receive: Vec<ReceiveRequest<S::NetworkElement>> = Vec::new();
    let ghost mut contexts: Seq<S::Context> = seq![*context];
    let ghost mut outputs: Seq<NetworkPhaseOutput<S>> = Seq::empty();
    let mut j: usize = 0;
    proof {
        assert(pending@ =~= Seq::new(outputs.len(), |k: int| outputs[k].pending));
        assert(sends_of(outputs) =~= Seq::empty());
        assert(receives_of(outputs) =~= Seq::empty());
    }
    while j < ops.len()
        invariant
            scheme.usable(),
            forall|j: int|
                0 <= j < ops@.len() ==> filled(
                    wire_contents@,
                    (#[trigger] ops@[j]).input_wires(),
                ),
            j <= ops@.len(),
            outputs.len() == j,
            network_trace(*scheme, ops@.take(j as int), wire_contents@, contexts, outputs),
            contexts[0] == *old(context),
            contexts.last() == *context,
            pending@ == Seq::new(outputs.len(), |k: int| outputs[k].pending),
            counts@.len() == outputs.len(),
            forall|k: int|
                0 <= k < outputs.len() ==> #[trigger] counts@[k] == outputs[k].receive_request@.len(),
            send@ == join(sends_of(outputs)),
            receive@ == join(receives_of(outputs)),
        decreases ops@.len() - j,
    {
        let op = &ops[j];
        let ghost at = *context;
        let wires = op.inputs();
        assert(filled(wire_contents@, ops@[j as int].input_wires()));
        let inputs = fetch(wire_contents, &wires);
        match scheme.do_network_phase(context, op, inputs) {
            Ok(output) => {
                let ghost out = output;
                let mut output = output;
                pending.push_back(output.pending);
                counts.push_back(output.receive_request.len());
                send.append(&mut output.send_request);
                receive.append(&mut output.receive_request);
                proof {
                    let more = outputs.push(out);
                    let after = contexts.push(*context);
                    assert(sends_of(more) =~= sends_of(outputs).push(out.send_request@));
                    assert(receives_of(more) =~= receives_of(outputs).push(out.receive_request@));
                    lemma_join_push(sends_of(outputs), out.send_request@);
                    lemma_join_push(receives_of(outputs), out.receive_request@);
                    assert(pending@ =~= Seq::new(more.len(), |k: int| more[k].pending));
                    assert forall|k: int| 0 <= k < ops@.take(j + 1).len() implies scheme.network_phase(
                        after[k],
                        #[trigger] ops@.take(j + 1)[k],
                        gather(wire_contents@, ops@.take(j + 1)[k].input_wires()),
                        after[k + 1],
                        Ok(more[k]),
                    ) by {
                        if k < j {
                            assert(ops@.take(j as int)[k] == ops@[k]);
                        }
                    }
                    outputs = more;
                    contexts = after;
                }
            },
            Err(error) => {
                let failure = scheme_error(&error);
                proof {
                    assert(network_stop_at(
                        *scheme,
                        ops@,
                        wire_contents@,
                        contexts,
                        outputs,
                        error,
                        *context,
                    ));
                }
                return Err(failure);
            },
        }
        j = j + 1;
    }
    proof {
        assert(ops@.take(j as int) =~= ops@);
    }
    let round = PendingRound { pending, counts };
    let exchange = Exchange { send, receive };
    proof {
        assert(round.holds(outputs));
        assert(exchange.carries(outputs));
    }
    Ok((round, exchange))
}

} // verus!

verus! {

/// How many batches the operations before `k` await.
pub open spec fn taken(counts: Seq<usize>, k: int) -> nat
    decreases k,
{
    if k <= 0 {
        0
    } else {
        taken(counts, k - 1) + counts[k - 1] as nat
    }
}

/// The smaller of two numbers.
pub open spec fn lesser(a: nat, b: nat) -> nat {
    if a <= b {
        a
    } else {
        b
    }
}

/// At most `count` of the batches, from the one at `start`.
pub open spec fn portion<E>(batches: Seq<Seq<E>>, start: nat, count: nat) -> Seq<Seq<E>> {
    batches.subrange(
        lesser(start, batches.len()) as int,
        lesser(start + count, batches.len()) as int,
    )
}

/// What the network brought for the operation `k`: the operations take as many batches as they
/// await, one after the other.
pub open spec fn data_for<E>(counts: Seq<usize>, data: Seq<Vec<E>>, k: int) -> Seq<E> {
    join(portion(contents(data), taken(counts, k), counts[k] as nat))
}

impl<S: MpcScheme> PendingRound<S> {
    /// Whether every operation of the round can be finalized with its part of `data`.
    pub open spec fn accepts(&self, scheme: S, data: Seq<Vec<S::NetworkElement>>) -> bool {
        &&& self.counts@.len() == self.pending@.len()
        &&& forall|k: int|
            0 <= k < self.pending@.len() ==> scheme.accepts(
                #[trigger] self.pending@[k],
                data_for(self.counts@, data, k),
            )
    }
}

/// Whether `results` are what the operations of `round` may be finalized with, where the context
/// passes through `contexts`.
pub open spec fn finalize_trace<S: MpcScheme>(
    scheme: S,
    round: PendingRound<S>,
    data: Seq<Vec<S::NetworkElement>>,
    contexts: Seq<S::Context>,
    results: Seq<FinalizePhaseOutput<S>>,
) -> bool {
    &&& results.len() <= round.pending@.len()
    &&& contexts.len() == results.len() + 1
    &&& forall|k: int|
        0 <= k < results.len() ==> scheme.finalize_phase(
            contexts[k],
            round.pending@[k],
            data_for(round.counts@, data, k),
            contexts[k + 1],
            Ok(#[trigger] results[k]),
        )
}

/// Whether the operations of `round` may be finalized with `results`.
pub open spec fn finalized<S: MpcScheme>(
    scheme: S,
    round: PendingRound<S>,
    data: Seq<Vec<S::NetworkElement>>,
    before: S::Context,
    after: S::Context,
    results: Seq<FinalizePhaseOutput<S>>,
) -> bool {
    &&& results.len() == round.pending@.len()
    &&& exists|contexts: Seq<S::Context>|
        {
            &&& #[trigger] finalize_trace(scheme, round, data, contexts, results)
            &&& contexts[0] == before
            &&& contexts.last() == after
        }
}

/// Whether the operations of `round` that have `results` may have been finalized, and the next
/// one may then have failed for `reason`.
pub open spec fn finalize_stop_at<S: MpcScheme>(
    scheme: S,
    round: PendingRound<S>,
    data: Seq<Vec<S::NetworkElement>>,
    contexts: Seq<S::Context>,
    results: Seq<FinalizePhaseOutput<S>>,
    reason: S::FinalizePhaseError,
    after: S::Context,
) -> bool {
    let k = results.len() as int;
    &&& k < round.pending@.len()
    &&& finalize_trace(scheme, round, data, contexts, results)
    &&& scheme.finalize_phase(
        contexts[k],
        round.pending@[k],
        data_for(round.counts@, data, k),
        after,
        Err(reason),
    )
}

/// Whether an operation of `round` may fail to be finalized, with the given error.
pub open spec fn finalize_stop<S: MpcScheme>(
    scheme: S,
    round: PendingRound<S>,
    data: Seq<Vec<S::NetworkElement>>,
    before: S::Context,
    after: S::Context,
    error: ExecutionContextError,
) -> bool {
    exists|
        contexts: Seq<S::Context>,
        results: Seq<FinalizePhaseOutput<S>>,
        reason: S::FinalizePhaseError,
    |
        #![trigger finalize_stop_at(scheme, round, data, contexts, results, reason, after)]
        {
            &&& finalize_stop_at(scheme, round, data, contexts, results, reason, after)
            &&& contexts[0] == before
            &&& is_scheme_error(error, reason.text())
        }
}

/// The first `count` batches of `rest`, which starts at `start`, as one.
fn take_batches<E>(
    rest: &mut VecDeque<Vec<E>>,
    count: usize,
    Ghost(data): Ghost<Seq<Vec<E>>>,
    Ghost(start): Ghost<nat>,
) -> (taken: Vec<E>)
    requires
        old(rest)@ == data.skip(lesser(start, data.len()) as int),
    ensures
        taken@ == join(portion(contents(data), start, count as nat)),
        final(rest)@ == data.skip(lesser(start + count as nat, data.len()) as int),
{
    let ghost all = contents(data);
    let mut taken: Vec<E> = Vec::new();
    let mut i: usize = 0;
    assert(portion(all, start, 0) =~= Seq::empty());
    while i < count && rest.len() > 0
        invariant
            all == contents(data),
            i <= count,
            rest@ == data.skip(lesser(start + i as nat, data.len()) as int),
            taken@ == join(portion(all, start, i as nat)),
        decreases count - i,
    {
        let ghost at = lesser(start + i as nat, data.len()) as int;
        let mut batch = rest.pop_front().unwrap();
        proof {
            assert(at < data.len());
            assert(batch == data[at]);
            assert(data.skip(at).drop_first() =~= data.skip(at + 1));
            lemma_join_push(portion(all, start, i as nat), all[at]);
            assert(portion(all, start, (i + 1) as nat) =~= portion(all, start, i as nat).push(all[at]));
        }
        taken.append(&mut batch);
        i = i + 1;
    }
    proof {
        assert(portion(all, start, count as nat) =~= portion(all, start, i as nat));
        assert(rest@ =~= data.skip(lesser(start + count as nat, data.len()) as int));
    }
    taken
}

/// The batches as a queue.
fn into_queue<E>(data: Vec<Vec<E>>) -> (queue: VecDeque<Vec<E>>)
    ensures
        queue@ == data@,
{
    let mut queue: VecDeque<Vec<E>> = VecDeque::new();
    for batch in iter: data
        invariant
            queue@ == iter.seq().take(iter.index() as int),
    {
        queue.push_back(batch);
    }
    assert(queue@ =~= data@);
    queue
}

/// Finalizes the network operations of a round with what the network brought.
pub fn finish_network_operations<S: MpcScheme>(
    scheme: &S,
    context: &mut S::Context,
    round: PendingRound<S>,
    data: Vec<Vec<S::NetworkElement>>,
) -> (r: Result<Vec<FinalizePhaseOutput<S>>, ExecutionContextError>)
    requires
        scheme.usable(),
        round.accepts(*scheme, data@),
    ensures
        match r {
            Ok(results) => finalized(
                *scheme,
                round,
                data@,
                *old(context),
                *final(context),
                results@,
            ),
            Err(error) => finalize_stop(
                *scheme,
                round,
                data@,
                *old(context),
                *final(context),
                error,
            ),
        },
{
    let ghost all = data@;
    let ghost pendings = round.pending@;
    let ghost counts = round.counts@;
    let mut rest = into_queue(data);
    let mut results: Vec<FinalizePhaseOutput<S>> = Vec::new();
    let mut pending = round.pending;
    let mut left = round.counts;
    let ghost mut contexts: Seq<S::Context> = seq![*context];
    let ghost mut k: int = 0;
    proof {
        assert(pendings.skip(0) =~= pendings);
        assert(counts.skip(0) =~= counts);
        assert(all.skip(0) =~= all);
    }
    while pending.len() > 0
        invariant
            scheme.usable(),
            all == data@,
            pendings == round.pending@,
            counts == round.counts@,
            round.accepts(*scheme, all),
            0 <= k <= pendings.len(),
            results@.len() == k,
            pending@ == pendings.skip(k),
            left@ == counts.skip(k),
            rest@ == all.skip(lesser(taken(counts, k), all.len()) as int),
            finalize_trace(*scheme, round, all, contexts, results@),
            contexts[0] == *old(context),
            contexts.last() == *context,
        decreases pendings.len() - k,
    {
        let ghost at = *context;
        let op = pending.pop_front().unwrap();
        let count = left.pop_front().unwrap();
        proof {
            assert(op == pendings[k]);
            assert(count == counts[k]);
            assert(pendings.skip(k).drop_first() =~= pendings.skip(k + 1));
            assert(counts.skip(k).drop_first() =~= counts.skip(k + 1));
            assert(taken(counts, k + 1) == taken(counts, k) + count as nat);
        }
        let op_data = take_batches(&mut rest, count, Ghost(all), Ghost(taken(counts, k)));
        proof {
            assert(scheme.accepts(round.pending@[k], data_for(round.counts@, all, k)));
        }
        match scheme.do_finalize_phase(context, op, op_data) {
            Ok(result) => {
                let ghost before = results@;
                results.push(result);
                proof {
                    let after = contexts.push(*context);
                    assert forall|i: int| 0 <= i < results@.len() implies scheme.finalize_phase(
                        after[i],
                        round.pending@[i],
                        data_for(round.counts@, all, i),
                        after[i + 1],
                        Ok(#[trigger] results@[i]),
                    ) by {
                        if i < k {
                            assert(results@[i] == before[i]);
                        }
                    }
                    contexts = after;
                    k = k + 1;
                }
            },
            Err(error) => {
                let failure = scheme_error(&error);
                proof {
                    assert(finalize_stop_at(
                        *scheme,
                        round,
                        all,
                        contexts,
                        results@,
                        error,
                        *context,
                    ));
                }
                return Err(failure);
            },
        }
    }
    Ok(results)
}

} // verus!

verus! {

/// `values`, with the outputs of each operation set to its result.
pub open spec fn store_all<S: MpcScheme>(
    values: Map<usize, S::Wire>,
    ops: Seq<S::Operation>,
    results: Seq<FinalizePhaseOutput<S>>,
) -> Map<usize, S::Wire>
    decreases ops.len(),
{
    if ops.len() == 0 {
        values
    } else {
        store(
            store_all(values, ops.drop_last(), results.drop_last()),
            ops.last().output_wires(),
            results.last().0@,
        )
    }
}

/// Whether each operation has as many results as it has outputs.
pub open spec fn fitting<S: MpcScheme>(
    ops: Seq<S::Operation>,
    results: Seq<FinalizePhaseOutput<S>>,
) -> bool {
    &&& ops.len() == results.len()
    &&& forall|k: int|
        0 <= k < ops.len() ==> (#[trigger] ops[k]).output_wires().len() == results[k].0@.len()
}

/// The outputs of stored operations have values, beside the wires that had one.
pub proof fn lemma_store_all_domain<S: MpcScheme>(
    values: Map<usize, S::Wire>,
    ops: Seq<S::Operation>,
    results: Seq<FinalizePhaseOutput<S>>,
)
    requires
        fitting(ops, results),
    ensures
        store_all(values, ops, results).dom() == values.dom() + ids(all_outputs(ops)),
    decreases ops.len(),
{
    if ops.len() == 0 {
        assert(outputs_of(ops) =~= Seq::empty());
        assert(store_all(values, ops, results).dom() =~= values.dom() + ids(all_outputs(ops)));
    } else {
        let k = ops.len() - 1;
        let rest = ops.drop_last();
        assert(ops[k].output_wires().len() == results[k].0@.len());
        assert forall|i: int| 0 <= i < rest.len() implies (#[trigger] rest[i]).output_wires().len()
            == results.drop_last()[i].0@.len() by {
            assert(rest[i] == ops[i]);
        }
        lemma_store_all_domain(values, rest, results.drop_last());
        lemma_store_domain(
            store_all(values, rest, results.drop_last()),
            ops.last().output_wires(),
            results.last().0@,
        );
        assert(outputs_of(ops).drop_last() =~= outputs_of(rest));
        lemma_ids_add(all_outputs(rest), ops.last().output_wires());
        assert(store_all(values, ops, results).dom() =~= values.dom() + ids(all_outputs(ops)));
    }
}

/// Whether none of the operations produces a wire that has a value.
pub(crate) fn outputs_free<O: Operation, W>(values: &HashMap<usize, W>, ops: &[O]) -> (b: bool)
    ensures
        b == free(values@, all_outputs(ops@)),
{
    let mut j: usize = 0;
    proof {
        assert(outputs_of(ops@.take(0)) =~= Seq::empty());
    }
    while j < ops.len()
        invariant
            j <= ops@.len(),
            free(values@, all_outputs(ops@.take(j as int))),
        decreases ops@.len() - j,
    {
        proof {
            lemma_outputs_take(ops@, j as int);
        }
        let ghost outs = ops@[j as int].output_wires();
        if !all_free(values, &ops[j].outputs()) {
            proof {
                let i = choose|i: int|
                    0 <= i < outs.len() && values@.contains_key(#[trigger] outs[i].0);
                lemma_join_index(outputs_of(ops@), j as int, i);
                assert(values@.contains_key(
                    all_outputs(ops@)[offset(outputs_of(ops@), j as int) + i].0,
                ));
            }
            return false;
        }
        proof {
            let made = all_outputs(ops@.take(j as int));
            let more = all_outputs(ops@.take(j + 1));
            assert forall|i: int| 0 <= i < more.len() implies !values@.contains_key(
                #[trigger] more[i].0,
            ) by {
                if i < made.len() {
                    assert(more[i] == made[i]);
                } else {
                    assert(more[i] == outs[i - made.len()]);
                }
            }
        }
        j = j + 1;
    }
    assert(ops@.take(j as int) =~= ops@);
    true
}

/// Sets the outputs of the network operations of a round.
pub fn store_outputs<S: MpcScheme>(
    wire_contents: &mut HashMap<usize, S::Wire>,
    ops: &[S::Operation],
    results: Vec<FinalizePhaseOutput<S>>,
)
    requires
        fitting(ops@, results@),
    ensures
        final(wire_contents)@ == store_all(old(wire_contents)@, ops@, results@),
{
    let ghost before = wire_contents@;
    let n = ops.len();
    let mut i: usize = 0;
    assert(ops@.take(0) =~= Seq::empty());
    for result in iter: results
        invariant
            i == iter.index(),
            n == ops@.len(),
            iter.seq() == results@,
            fitting(ops@, results@),
            wire_contents@ == store_all(before, ops@.take(i as int), results@.take(i as int)),
    {
        proof {
            assert(ops@.take(i + 1).drop_last() =~= ops@.take(i as int));
            assert(results@.take(i + 1).drop_last() =~= results@.take(i as int));
            assert(ops@[i as int].output_wires().len() == results@[i as int].0@.len());
        }
        let outputs = ops[i].outputs();
        put(wire_contents, &outputs, result.0);
        i = i + 1;
    }
    assert(ops@.take(i as int) =~= ops@);
    assert(results@.take(i as int) =~= results@);
}

/// Data that answers what a round asked for is accepted by all of its operations.
pub proof fn law_answers_are_accepted<S: MpcScheme>(
    scheme: S,
    ops: Seq<S::Operation>,
    values: Map<usize, S::Wire>,
    before: S::Context,
    after: S::Context,
    round: PendingRound<S>,
    exchange: Exchange<S>,
    data: Seq<Vec<S::NetworkElement>>,
)
    requires
        network_start(scheme, ops, values, before, after, round, exchange),
        answers(exchange.receive@, contents(data)),
    ensures
        round.accepts(scheme, data),
{
    let (contexts, outputs) = choose|
        contexts: Seq<S::Context>,
        outputs: Seq<NetworkPhaseOutput<S>>,
    |
        {
            &&& #[trigger] network_trace(scheme, ops, values, contexts, outputs)
            &&& contexts[0] == before
            &&& contexts.last() == after
            &&& round.holds(outputs)
            &&& exchange.carries(outputs)
        };
    let lists = receives_of(outputs);
    let all = contents(data);
    assert forall|k: int| 0 <= k < round.pending@.len() implies scheme.accepts(
        #[trigger] round.pending@[k],
        data_for(round.counts@, data, k),
    ) by {
        lemma_taken_is_offset(round, outputs, k);
        lemma_join_take(lists, k);
        lemma_join_prefix(lists, k + 1);
        let start = taken(round.counts@, k);
        let part = portion(all, start, round.counts@[k] as nat);
        let requests = outputs[k].receive_request@;
        assert(round.counts@[k] == requests.len());
        assert forall|i: int| 0 <= i < requests.len() implies (#[trigger] requests[i]).admits(
            part[i].len(),
        ) by {
            lemma_join_index(lists, k, i);
            assert(exchange.receive@[offset(lists, k) + i] == requests[i]);
            assert(part[i] == all[offset(lists, k) + i]);
        }
        assert(answers(requests, part));
        assert(scheme.network_phase(
            contexts[k],
            ops[k],
            gather(values, ops[k].input_wires()),
            contexts[k + 1],
            Ok(outputs[k]),
        ));
        scheme.network_phase_is_consistent(
            contexts[k],
            ops[k],
            gather(values, ops[k].input_wires()),
            contexts[k + 1],
            outputs[k],
        );
        assert(round.pending@[k] == outputs[k].pending);
    }
}

pub(crate) proof fn lemma_taken_is_offset<S: MpcScheme>(
    round: PendingRound<S>,
    outputs: Seq<NetworkPhaseOutput<S>>,
    k: int,
)
    requires
        round.holds(outputs),
        0 <= k <= outputs.len(),
    ensures
        taken(round.counts@, k) == offset(receives_of(outputs), k),
    decreases k,
{
    let lists = receives_of(outputs);
    if k == 0 {
        assert(lists.take(0) =~= Seq::empty());
    } else {
        lemma_taken_is_offset(round, outputs, k - 1);
        lemma_join_take(lists, k - 1);
        assert(round.counts@[k - 1] == outputs[k - 1].receive_request@.len());
    }
}

} // verus!

verus! {

/// Whether a round may go from `before` to `after` with the given result: its local operations
/// run, and its network operations ask for an exchange; or one of them fails.
pub open spec fn round_outcome<S: MpcScheme>(
    scheme: S,
    round: Round<S>,
    before: (S::Context, Map<usize, S::Wire>),
    after: (S::Context, Map<usize, S::Wire>),
    result: Result<(PendingRound<S>, Exchange<S>), ExecutionContextError>,
) -> bool {
    match result {
        Ok((pending, exchange)) => exists|context: S::Context| #[trigger]
            local_run(scheme, round.local(), before, (context, after.1)) && network_start(
                scheme,
                round.network(),
                after.1,
                context,
                after.0,
                pending,
                exchange,
            ),
        Err(error) => {
            ||| local_outcome(scheme, round.local(), before, after, Err(error))
            ||| exists|context: S::Context| #[trigger]
                local_run(scheme, round.local(), before, (context, after.1)) && network_stop(
                    scheme,
                    round.network(),
                    after.1,
                    context,
                    after.0,
                    error,
                )
        },
    }
}

/// Whether the network operations of a round find their wires in `values` or among the outputs of
/// its local operations.
pub open spec fn network_feasible<S: MpcScheme, W>(round: Round<S>, values: Map<usize, W>) -> bool {
    forall|j: int, w: WireId|
        0 <= j < round.network().len() && #[trigger] round.network()[j].input_wires().contains(w)
            ==> values.contains_key(w.0) || all_outputs(round.local()).contains(w)
}

/// Runs the local operations of a round and the network phases of its network operations.
pub fn start_round<S: MpcScheme>(
    scheme: &S,
    context: &mut S::Context,
    wire_contents: &mut HashMap<usize, S::Wire>,
    round: &Round<S>,
) -> (r: Result<(PendingRound<S>, Exchange<S>), ExecutionContextError>)
    requires
        scheme.usable(),
        forall|j: int| 0 <= j < round.local().len() ==> scheme.local(#[trigger] round.local()[j]),
        feasible(round.local(), old(wire_contents)@),
        network_feasible(*round, old(wire_contents)@),
    ensures
        round_outcome(
            *scheme,
            *round,
            (*old(context), old(wire_contents)@),
            (*final(context), final(wire_contents)@),
            r,
        ),
        r is Ok ==> final(wire_contents)@.dom() == old(wire_contents)@.dom() + ids(
            all_outputs(round.local()),
        ),
        old(wire_contents)@.dom().subset_of(final(wire_contents)@.dom()),
        final(wire_contents)@.dom().subset_of(
            old(wire_contents)@.dom() + ids(all_outputs(round.local())),
        ),
{
    let ghost before = (*context, wire_contents@);
    match do_local_operations(scheme, context, wire_contents, round.local_operations()) {
        Ok(_) => {},
        Err(error) => return Err(error),
    }
    let ghost middle = *context;
    proof {
        let outs = all_outputs(round.local());
        assert forall|j: int| 0 <= j < round.network().len() implies filled(
            wire_contents@,
            (#[trigger] round.network()[j]).input_wires(),
        ) by {
            let wires = round.network()[j].input_wires();
            assert forall|i: int| 0 <= i < wires.len() implies wire_contents@.contains_key(
                #[trigger] wires[i].0,
            ) by {
                let w = wires[i];
                assert(w == WireId(w.0));
                assert(round.network()[j].input_wires().contains(w));
                assert(ids(outs).contains(w.0) == outs.contains(w));
                assert((before.1.dom() + ids(outs)).contains(w.0));
            }
        }
    }
    let started = start_network_operations(
        scheme,
        context,
        wire_contents,
        round.network_operations(),
    );
    proof {
        let after = (*context, wire_contents@);
        assert(local_run(*scheme, round.local(), before, (middle, after.1)));
    }
    started
}

} // verus!

verus! {

/// Wires that are not stored keep their values.
pub proof fn lemma_store_keeps<W>(
    values: Map<usize, W>,
    wires: Seq<WireId>,
    results: Seq<W>,
    w: usize,
)
    requires
        !ids(wires).contains(w),
    ensures
        store(values, wires, results).contains_key(w) == values.contains_key(w),
        store(values, wires, results)[w] == values[w],
    decreases wires.len(),
{
    if wires.len() > 0 {
        let rest = wires.drop_last();
        assert(wires.last() == WireId(wires.last().0));
        assert(wires[wires.len() - 1] == wires.last());
        if rest.contains(WireId(w)) {
            assert(wires[rest.index_of(WireId(w))] == WireId(w));
        }
        lemma_store_keeps(values, rest, results.drop_last(), w);
    }
}

/// Wires that have values keep them when others are stored.
pub proof fn lemma_free_keeps<W>(
    values: Map<usize, W>,
    wires: Seq<WireId>,
    results: Seq<W>,
    w: usize,
)
    requires
        free(values, wires),
        values.contains_key(w),
    ensures
        store(values, wires, results).contains_key(w),
        store(values, wires, results)[w] == values[w],
{
    if ids(wires).contains(w) {
        let i = wires.index_of(WireId(w));
        assert(!values.contains_key(wires[i].0));
    }
    lemma_store_keeps(values, wires, results, w);
}

/// Local operations leave the values that wires have.
pub proof fn lemma_local_run_keeps<S: MpcScheme>(
    scheme: S,
    ops: Seq<S::Operation>,
    before: (S::Context, Map<usize, S::Wire>),
    after: (S::Context, Map<usize, S::Wire>),
    w: usize,
)
    requires
        local_run(scheme, ops, before, after),
        before.1.contains_key(w),
    ensures
        after.1.contains_key(w),
        after.1[w] == before.1[w],
{
    let states = choose|states: Seq<(S::Context, Map<usize, S::Wire>)>|
        {
            &&& #[trigger] local_trace(scheme, ops, states)
            &&& states[0] == before
            &&& states.last() == after
        };
    lemma_local_trace_keeps(scheme, ops, states, w, ops.len() as int);
}

proof fn lemma_local_trace_keeps<S: MpcScheme>(
    scheme: S,
    ops: Seq<S::Operation>,
    states: Seq<(S::Context, Map<usize, S::Wire>)>,
    w: usize,
    k: int,
)
    requires
        local_trace(scheme, ops, states),
        states[0].1.contains_key(w),
        0 <= k <= ops.len(),
    ensures
        states[k].1.contains_key(w),
        states[k].1[w] == states[0].1[w],
    decreases k,
{
    if k > 0 {
        lemma_local_trace_keeps(scheme, ops, states, w, k - 1);
        let op = ops[k - 1];
        let before = states[k - 1];
        let after = states[k];
        assert(local_step(scheme, op, before, after));
        let (middle, output, result) = choose|
            middle: S::Context,
            output: NetworkPhaseOutput<S>,
            result: FinalizePhaseOutput<S>,
        |
            {
                &&& #[trigger] scheme.network_phase(
                    before.0,
                    op,
                    gather(before.1, op.input_wires()),
                    middle,
                    Ok(output),
                )
                &&& #[trigger] scheme.finalize_phase(
                    middle,
                    output.pending,
                    Seq::empty(),
                    after.0,
                    Ok(result),
                )
                &&& free(before.1, op.output_wires())
                &&& after.1 == store(before.1, op.output_wires(), result.0@)
            };
        lemma_free_keeps(before.1, op.output_wires(), result.0@, w);
    }
}

/// Finalized operations leave the values of the wires that they do not produce.
pub proof fn lemma_store_all_keeps<S: MpcScheme>(
    values: Map<usize, S::Wire>,
    ops: Seq<S::Operation>,
    results: Seq<FinalizePhaseOutput<S>>,
    w: usize,
)
    requires
        !ids(all_outputs(ops)).contains(w),
    ensures
        store_all(values, ops, results).contains_key(w) == values.contains_key(w),
        store_all(values, ops, results)[w] == values[w],
    decreases ops.len(),
{
    if ops.len() > 0 {
        let rest = ops.drop_last();
        let op = ops.last();
        lemma_outputs_take(ops, ops.len() - 1);
        assert(ops.take(ops.len() - 1) =~= rest);
        assert(ops.take(ops.len() as int) =~= ops);
        lemma_ids_add(all_outputs(rest), op.output_wires());
        lemma_store_all_keeps(values, rest, results.drop_last(), w);
        lemma_store_keeps(
            store_all(values, rest, results.drop_last()),
            op.output_wires(),
            results.last().0@,
            w,
        );
    }
}

/// A round leaves the values that wires have, whatever comes of it.
pub proof fn law_round_keeps_values<S: MpcScheme>(
    scheme: S,
    round: Round<S>,
    before: (S::Context, Map<usize, S::Wire>),
    after: (S::Context, Map<usize, S::Wire>),
    result: Result<(PendingRound<S>, Exchange<S>), ExecutionContextError>,
    w: usize,
)
    requires
        round_outcome(scheme, round, before, after, result),
        before.1.contains_key(w),
    ensures
        after.1.contains_key(w),
        after.1[w] == before.1[w],
{
    let ops = round.local();
    match result {
        Ok((pending, exchange)) => {
            let context = choose|context: S::Context| #[trigger]
                local_run(scheme, ops, before, (context, after.1)) && network_start(
                    scheme,
                    round.network(),
                    after.1,
                    context,
                    after.0,
                    pending,
                    exchange,
                );
            lemma_local_run_keeps(scheme, ops, before, (context, after.1), w);
        },
        Err(error) => {
            if local_outcome(scheme, ops, before, after, Err(error)) {
                let (k, context) = choose|k: int, context: S::Context| #[trigger]
                    local_stop(scheme, ops, k, context, before, after, error);
                assert(local_stop(scheme, ops, k, context, before, after, error));
                lemma_local_run_keeps(scheme, ops.take(k), before, (context, after.1), w);
            } else {
                let context = choose|context: S::Context| #[trigger]
                    local_run(scheme, ops, before, (context, after.1)) && network_stop(
                        scheme,
                        round.network(),
                        after.1,
                        context,
                        after.0,
                        error,
                    );
                lemma_local_run_keeps(scheme, ops, before, (context, after.1), w);
            }
        },
    }
}

} // verus!
