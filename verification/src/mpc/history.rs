//! What a party does over a phase, operation by operation.
//!
//! A phase is a run of calls: the first starts it, and each further one resumes it with what the
//! network brought, until it is finished.

use vstd::prelude::*;

use crate::mpc::circuit::{
    all_outputs, lemma_all_outputs_add, network_inputs_by, outputs_of, run_order, starts_locally,
    Round, WireId,
};
use crate::mpc::config::MpcConfig;
use crate::mpc::error::{ExecutionContextError, ExecutionState};
use crate::mpc::execution::{
    all_rounds, completes, continues, given, inputs_outcome, lemma_outputs_new, lemma_results_fit,
    lemma_round_feasible, lemma_run_order_prefix, lemma_started_is_issued, lemma_well_formed,
    lemma_wires_after_step, next_state, passes, resumes, wires_after, ExecutionContext, Step,
};
use crate::mpc::phases::{
    data_for, feasible, finalize_trace, finalized, fitting, free, gather, ids, lemma_ids_add,
    lemma_outputs_take, lemma_store_all_domain, lemma_store_domain, lemma_store_keeps,
    lemma_taken_is_offset, local_run, local_step, local_trace, network_start, network_trace,
    portion, receives_of, sends_of, store, store_all, taken, Exchange, PendingRound,
};
use crate::mpc::scheme::{answers, FinalizePhaseOutput, MpcScheme, NetworkPhaseOutput, Operation};
use crate::networking::network::{total, ReceiveRequest, RecvLen, SendLen, SendRequest};
use crate::seqs::{
    contents, join, lemma_join_contains, lemma_join_index, lemma_join_take, lemma_join_unique,
    lemma_offset_monotonic, offset,
};

verus! {

/// How a party takes part in one operation.
#[verifier::reject_recursive_types(S)]
pub struct Part<S: MpcScheme> {
    /// The context before the network phase.
    pub before: S::Context,
    /// The values of the wires that the operation consumes.
    pub inputs: Seq<S::Wire>,
    /// The context after the network phase.
    pub after: S::Context,
    /// What the network phase returned.
    pub output: NetworkPhaseOutput<S>,
    /// What the network brought, one batch for each request.
    pub data: Seq<Seq<S::NetworkElement>>,
    /// The context before the finalize phase.
    pub middle: S::Context,
    /// The context after the finalize phase.
    pub end: S::Context,
    /// What the finalize phase returned.
    pub result: FinalizePhaseOutput<S>,
}

impl<S: MpcScheme> Part<S> {
    /// Whether this is how a party takes part in `op` that ends up with `wires`.
    pub open spec fn plays(self, scheme: S, op: S::Operation, wires: Map<usize, S::Wire>) -> bool {
        &&& scheme.network_phase(self.before, op, self.inputs, self.after, Ok(self.output))
        &&& answers(self.output.receive_request@, self.data)
        &&& scheme.finalize_phase(
            self.middle,
            self.output.pending,
            join(self.data),
            self.end,
            Ok(self.result),
        )
        &&& self.inputs == gather(wires, op.input_wires())
        &&& self.result.0@ == gather(wires, op.output_wires())
    }
}

/// Whether `holds` is kept by the operations: where it holds of a context before the operation
/// `q`, it holds of the context before the next one, and a finalize phase does not change it.
pub open spec fn kept<S: MpcScheme>(
    scheme: S,
    ops: Seq<S::Operation>,
    holds: spec_fn(S::Context, int) -> bool,
) -> bool {
    &&& forall|
        q: int,
        before: S::Context,
        inputs: Seq<S::Wire>,
        after: S::Context,
        output: NetworkPhaseOutput<S>,
    |
        0 <= q < ops.len() && holds(before, q) && #[trigger] scheme.network_phase(
            before,
            ops[q],
            inputs,
            after,
            Ok(output),
        ) ==> holds(after, q + 1)
    &&& forall|
        q: int,
        before: S::Context,
        pending: S::Pending,
        data: Seq<S::NetworkElement>,
        after: S::Context,
        result: FinalizePhaseOutput<S>,
    | #[trigger]
        holds(before, q) && #[trigger] scheme.finalize_phase(
            before,
            pending,
            data,
            after,
            Ok(result),
        ) ==> holds(after, q)
}

/// Whether all values of `some` are among those of `all`.
pub open spec fn within<W>(some: Map<usize, W>, all: Map<usize, W>) -> bool {
    forall|w: usize| #[trigger] some.contains_key(w) ==> all.contains_key(w) && all[w] == some[w]
}

/// Whether `some` stand in `all` from `at` on.
pub open spec fn stands_at<O>(some: Seq<O>, all: Seq<O>, at: int) -> bool {
    &&& 0 <= at
    &&& at + some.len() <= all.len()
    &&& forall|j: int| 0 <= j < some.len() ==> #[trigger] some[j] == all[at + j]
}

/// Stored wires have their results.
proof fn lemma_store_get<W>(values: Map<usize, W>, wires: Seq<WireId>, results: Seq<W>, i: int)
    requires
        wires.len() == results.len(),
        wires.no_duplicates(),
        0 <= i < wires.len(),
    ensures
        store(values, wires, results).contains_key(wires[i].0),
        store(values, wires, results)[wires[i].0] == results[i],
    decreases wires.len(),
{
    if i < wires.len() - 1 {
        lemma_store_get(values, wires.drop_last(), results.drop_last(), i);
        assert(wires[i] != wires[wires.len() - 1]);
        assert(wires[i].0 != wires.last().0);
    }
}

/// What was there before some wires were stored is there afterwards.
proof fn lemma_store_within<W>(
    values: Map<usize, W>,
    wires: Seq<WireId>,
    results: Seq<W>,
    all: Map<usize, W>,
)
    requires
        wires.len() == results.len(),
        wires.no_duplicates(),
        free(values, wires),
        within(store(values, wires, results), all),
    ensures
        within(values, all),
        results == gather(all, wires),
{
    assert forall|w: usize| #[trigger] values.contains_key(w) implies all.contains_key(w) && all[w]
        == values[w] by {
        if ids(wires).contains(w) {
            let i = wires.index_of(WireId(w));
            assert(!values.contains_key(wires[i].0));
        }
        lemma_store_keeps(values, wires, results, w);
        assert(store(values, wires, results).contains_key(w));
    }
    assert forall|i: int| 0 <= i < wires.len() implies results[i] == gather(all, wires)[i] by {
        lemma_store_get(values, wires, results, i);
        assert(store(values, wires, results).contains_key(wires[i].0));
    }
    assert(results =~= gather(all, wires));
}

/// Wires that have values have the same values in the end.
proof fn lemma_gather_within<W>(some: Map<usize, W>, all: Map<usize, W>, wires: Seq<WireId>)
    requires
        within(some, all),
        forall|w: WireId| #[trigger] wires.contains(w) ==> some.contains_key(w.0),
    ensures
        gather(some, wires) == gather(all, wires),
{
    assert forall|i: int| 0 <= i < wires.len() implies gather(some, wires)[i] == gather(
        all,
        wires,
    )[i] by {
        assert(wires.contains(wires[i]));
        assert(some.contains_key(wires[i].0));
    }
    assert(gather(some, wires) =~= gather(all, wires));
}

/// Whether the part takes the context and the wires from `before` to `after`, without the network.
spec fn moves<S: MpcScheme>(
    scheme: S,
    op: S::Operation,
    before: (S::Context, Map<usize, S::Wire>),
    after: (S::Context, Map<usize, S::Wire>),
    part: Part<S>,
) -> bool {
    &&& part.before == before.0
    &&& part.inputs == gather(before.1, op.input_wires())
    &&& part.data == Seq::<Seq<S::NetworkElement>>::empty()
    &&& part.middle == part.after
    &&& part.end == after.0
    &&& scheme.network_phase(part.before, op, part.inputs, part.after, Ok(part.output))
    &&& scheme.finalize_phase(
        part.middle,
        part.output.pending,
        Seq::empty(),
        part.end,
        Ok(part.result),
    )
    &&& free(before.1, op.output_wires())
    &&& after.1 == store(before.1, op.output_wires(), part.result.0@)
    &&& part.result.0@.len() == op.output_wires().len()
}

/// A local operation is moved by a part.
proof fn lemma_moves<S: MpcScheme>(
    scheme: S,
    op: S::Operation,
    before: (S::Context, Map<usize, S::Wire>),
    after: (S::Context, Map<usize, S::Wire>),
) -> (part: Part<S>)
    requires
        local_step(scheme, op, before, after),
    ensures
        moves(scheme, op, before, after, part),
{
    let (middle, output, result) = choose|
        middle: S::Context,
        output: NetworkPhaseOutput<S>,
        result: FinalizePhaseOutput<S>,
    |
        {
            &&& #[trigger] scheme.network_phase(
                before.0,
                op,
                gather(before.1, op.input_wires()),
                middle,
                Ok(output),
            )
            &&& #[trigger] scheme.finalize_phase(
                middle,
                output.pending,
                Seq::empty(),
                after.0,
                Ok(result),
            )
            &&& free(before.1, op.output_wires())
            &&& after.1 == store(before.1, op.output_wires(), result.0@)
        };
    let inputs = gather(before.1, op.input_wires());
    scheme.outputs_are_consistent(
        op,
        inputs,
        output,
        Seq::empty(),
        result,
        (before.0, middle, middle, after.0),
    );
    Part {
        before: before.0,
        inputs,
        after: middle,
        output,
        data: Seq::empty(),
        middle,
        end: after.0,
        result,
    }
}

/// The part that moves a local operation.
spec fn mover<S: MpcScheme>(
    scheme: S,
    op: S::Operation,
    before: (S::Context, Map<usize, S::Wire>),
    after: (S::Context, Map<usize, S::Wire>),
) -> Part<S> {
    choose|part: Part<S>| moves(scheme, op, before, after, part)
}

/// The operations before `j` have their outputs stored, in a context that the operations keep.
proof fn lemma_local_states<S: MpcScheme>(
    scheme: S,
    ops: Seq<S::Operation>,
    states: Seq<(S::Context, Map<usize, S::Wire>)>,
    program: Seq<S::Operation>,
    holds: spec_fn(S::Context, int) -> bool,
    at: int,
    j: int,
)
    requires
        local_trace(scheme, ops, states),
        kept(scheme, program, holds),
        stands_at(ops, program, at),
        holds(states[0].0, at),
        0 <= j <= ops.len(),
    ensures
        states[j].1.dom() == states[0].1.dom() + ids(all_outputs(ops.take(j))),
        holds(states[j].0, at + j),
    decreases j,
{
    if j == 0 {
        assert(outputs_of(ops.take(0)) =~= Seq::empty());
        assert(states[0].1.dom() =~= states[0].1.dom() + ids(all_outputs(ops.take(0))));
    } else {
        lemma_local_states(scheme, ops, states, program, holds, at, j - 1);
        let op = ops[j - 1];
        assert(local_step(scheme, op, states[j - 1], states[j]));
        let part = lemma_moves(scheme, op, states[j - 1], states[j]);
        lemma_store_domain(states[j - 1].1, op.output_wires(), part.result.0@);
        lemma_outputs_take(ops, j - 1);
        lemma_ids_add(all_outputs(ops.take(j - 1)), op.output_wires());
        assert(states[j].1.dom() =~= states[0].1.dom() + ids(all_outputs(ops.take(j))));
        assert(op == program[at + (j - 1)]);
        assert(holds(part.after, at + j));
    }
}

/// The outputs of an operation are distinct where those of all are.
proof fn lemma_outputs_once<O: Operation>(ops: Seq<O>, j: int)
    requires
        all_outputs(ops).no_duplicates(),
        0 <= j < ops.len(),
    ensures
        ops[j].output_wires().no_duplicates(),
{
    let lists = outputs_of(ops);
    let outs = ops[j].output_wires();
    assert(lists[j] == outs);
    assert forall|x: int, y: int| 0 <= x < y < outs.len() implies outs[x] != outs[y] by {
        lemma_join_index(lists, j, x);
        lemma_join_index(lists, j, y);
        assert(all_outputs(ops)[offset(lists, j) + x] != all_outputs(ops)[offset(lists, j) + y]);
    }
}

/// The outputs of an operation are new where those of all are distinct and new.
proof fn lemma_outputs_free<O: Operation, W>(
    ops: Seq<O>,
    values: Map<usize, W>,
    start: Map<usize, W>,
    j: int,
)
    requires
        all_outputs(ops).no_duplicates(),
        free(start, all_outputs(ops)),
        0 <= j < ops.len(),
        values.dom() == start.dom() + ids(all_outputs(ops.take(j))),
    ensures
        free(values, ops[j].output_wires()),
{
    let lists = outputs_of(ops);
    let outs = ops[j].output_wires();
    assert(lists[j] == outs);
    assert forall|i: int| 0 <= i < outs.len() implies !values.contains_key(#[trigger] outs[i].0) by {
        let w = outs[i];
        assert(w == WireId(w.0));
        lemma_join_index(lists, j, i);
        assert(!start.contains_key(all_outputs(ops)[offset(lists, j) + i].0));
        if all_outputs(ops.take(j)).contains(w) {
            lemma_join_contains(outputs_of(ops.take(j)), w);
            let k = choose|k: int|
                0 <= k < outputs_of(ops.take(j)).len() && (#[trigger] outputs_of(
                    ops.take(j),
                )[k]).contains(w);
            assert(lists[k].contains(w));
            lemma_join_unique(lists, k, j, w);
        }
        assert(values.dom().contains(w.0) == (start.dom().contains(w.0) || ids(
            all_outputs(ops.take(j)),
        ).contains(w.0)));
    }
}

/// What has a value between local operations has it in the end.
proof fn lemma_local_within<S: MpcScheme>(
    scheme: S,
    ops: Seq<S::Operation>,
    states: Seq<(S::Context, Map<usize, S::Wire>)>,
    program: Seq<S::Operation>,
    holds: spec_fn(S::Context, int) -> bool,
    at: int,
    all: Map<usize, S::Wire>,
    j: int,
)
    requires
        local_trace(scheme, ops, states),
        kept(scheme, program, holds),
        stands_at(ops, program, at),
        holds(states[0].0, at),
        feasible(ops, states[0].1),
        within(states.last().1, all),
        0 <= j <= ops.len(),
    ensures
        within(states[j].1, all),
    decreases ops.len() - j,
{
    if j < ops.len() {
        lemma_local_within(scheme, ops, states, program, holds, at, all, j + 1);
        assert(local_step(scheme, ops[j], states[j], states[j + 1]));
        let part = lemma_moves(scheme, ops[j], states[j], states[j + 1]);
        lemma_outputs_once(ops, j);
        lemma_store_within(states[j].1, ops[j].output_wires(), part.result.0@, all);
    }
}

/// Whether `parts` are how a party takes part in `ops`, which stand in its program from `at` on.
pub open spec fn all_play<S: MpcScheme>(
    scheme: S,
    ops: Seq<S::Operation>,
    wires: Map<usize, S::Wire>,
    holds: spec_fn(S::Context, int) -> bool,
    at: int,
    parts: Seq<Part<S>>,
) -> bool {
    &&& parts.len() == ops.len()
    &&& forall|j: int|
        0 <= j < ops.len() ==> (#[trigger] parts[j]).plays(scheme, ops[j], wires) && holds(
            parts[j].before,
            at + j,
        )
}

/// The local operations of a round are played.
proof fn lemma_local_parts<S: MpcScheme>(
    scheme: S,
    ops: Seq<S::Operation>,
    before: (S::Context, Map<usize, S::Wire>),
    after: (S::Context, Map<usize, S::Wire>),
    program: Seq<S::Operation>,
    holds: spec_fn(S::Context, int) -> bool,
    at: int,
    all: Map<usize, S::Wire>,
) -> (parts: Seq<Part<S>>)
    requires
        local_run(scheme, ops, before, after),
        forall|j: int| 0 <= j < ops.len() ==> scheme.local(#[trigger] ops[j]),
        kept(scheme, program, holds),
        stands_at(ops, program, at),
        holds(before.0, at),
        feasible(ops, before.1),
        within(after.1, all),
    ensures
        all_play(scheme, ops, all, holds, at, parts),
        holds(after.0, at + ops.len()),
        after.1.dom() == before.1.dom() + ids(all_outputs(ops)),
        within(before.1, all),
{
    let states = choose|states: Seq<(S::Context, Map<usize, S::Wire>)>|
        {
            &&& #[trigger] local_trace(scheme, ops, states)
            &&& states[0] == before
            &&& states.last() == after
        };
    let parts = Seq::new(ops.len(), |j: int| mover(scheme, ops[j], states[j], states[j + 1]));
    assert forall|j: int| 0 <= j < ops.len() implies (#[trigger] parts[j]).plays(
        scheme,
        ops[j],
        all,
    ) && holds(parts[j].before, at + j) by {
        let op = ops[j];
        let part = parts[j];
        assert(local_step(scheme, op, states[j], states[j + 1]));
        let some = lemma_moves(scheme, op, states[j], states[j + 1]);
        assert(moves(scheme, op, states[j], states[j + 1], part));
        lemma_local_states(scheme, ops, states, program, holds, at, j);
        lemma_local_within(scheme, ops, states, program, holds, at, all, j);
        lemma_local_within(scheme, ops, states, program, holds, at, all, j + 1);
        lemma_outputs_once(ops, j);
        lemma_store_within(states[j].1, op.output_wires(), part.result.0@, all);
        assert forall|w: WireId| #[trigger] op.input_wires().contains(w) implies states[j].1.contains_key(
            w.0,
        ) by {
            assert(ops[j].input_wires().contains(w));
            assert(w == WireId(w.0));
            assert(states[j].1.dom().contains(w.0) == (states[0].1.dom().contains(w.0) || ids(
                all_outputs(ops.take(j)),
            ).contains(w.0)));
        }
        lemma_gather_within(states[j].1, all, op.input_wires());
        scheme.network_phase_is_consistent(part.before, op, part.inputs, part.after, part.output);
        assert(join(part.data) =~= Seq::empty());
    }
    lemma_local_states(scheme, ops, states, program, holds, at, ops.len() as int);
    lemma_local_within(scheme, ops, states, program, holds, at, all, 0);
    assert(ops.take(ops.len() as int) =~= ops);
    parts
}

} // verus!

verus! {

/// The requests to send of each part.
pub open spec fn part_sends<S: MpcScheme>(parts: Seq<Part<S>>) -> Seq<
    Seq<SendRequest<'static, S::NetworkElement>>,
> {
    Seq::new(parts.len(), |k: int| parts[k].output.send_request@)
}

/// The requests to receive of each part.
pub open spec fn part_receives<S: MpcScheme>(parts: Seq<Part<S>>) -> Seq<
    Seq<ReceiveRequest<S::NetworkElement>>,
> {
    Seq::new(parts.len(), |k: int| parts[k].output.receive_request@)
}

/// What the network brought for each part.
pub open spec fn part_data<S: MpcScheme>(parts: Seq<Part<S>>) -> Seq<
    Seq<Seq<S::NetworkElement>>,
> {
    Seq::new(parts.len(), |k: int| parts[k].data)
}

/// Whether the parts share an exchange: what they ask for, one after the other, is what the
/// exchange asks for, and what they get is what it brought.
pub open spec fn share<S: MpcScheme>(
    parts: Seq<Part<S>>,
    exchange: Exchange<S>,
    data: Seq<Vec<S::NetworkElement>>,
) -> bool {
    &&& exchange.send@ == join(part_sends(parts))
    &&& exchange.receive@ == join(part_receives(parts))
    &&& contents(data) == join(part_data(parts))
}

/// The portions of the batches, one after the other, are the batches.
proof fn lemma_portions<E>(counts: Seq<usize>, all: Seq<Seq<E>>, parts: Seq<Seq<Seq<E>>>, k: int)
    requires
        0 <= k <= counts.len(),
        parts.len() == counts.len(),
        forall|i: int|
            0 <= i < counts.len() ==> #[trigger] parts[i] == portion(
                all,
                taken(counts, i),
                counts[i] as nat,
            ),
        taken(counts, k) <= all.len(),
    ensures
        join(parts.take(k)) == all.take(taken(counts, k) as int),
    decreases k,
{
    if k == 0 {
        assert(parts.take(0) =~= Seq::empty());
        assert(join(parts.take(k)) =~= all.take(taken(counts, k) as int));
    } else {
        lemma_portions(counts, all, parts, k - 1);
        lemma_join_take(parts, k - 1);
        assert(parts[k - 1] == portion(all, taken(counts, k - 1), counts[k - 1] as nat));
        assert(join(parts.take(k)) =~= all.take(taken(counts, k) as int));
    }
}

/// Finalized operations have their results stored.
proof fn lemma_store_all_get<S: MpcScheme>(
    values: Map<usize, S::Wire>,
    ops: Seq<S::Operation>,
    results: Seq<FinalizePhaseOutput<S>>,
    all: Map<usize, S::Wire>,
    k: int,
)
    requires
        fitting(ops, results),
        all_outputs(ops).no_duplicates(),
        free(values, all_outputs(ops)),
        within(store_all(values, ops, results), all),
        0 <= k <= ops.len(),
    ensures
        within(store_all(values, ops.take(k), results.take(k)), all),
        k < ops.len() ==> results[k].0@ == gather(all, ops[k].output_wires()),
    decreases ops.len() - k,
{
    if k == ops.len() {
        assert(ops.take(k) =~= ops);
        assert(results.take(k) =~= results);
    } else {
        lemma_store_all_get(values, ops, results, all, k + 1);
        assert(ops.take(k + 1).drop_last() =~= ops.take(k));
        assert(results.take(k + 1).drop_last() =~= results.take(k));
        let so_far = store_all(values, ops.take(k), results.take(k));
        assert forall|i: int| 0 <= i < k implies (#[trigger] ops.take(k)[i]).output_wires().len()
            == results.take(k)[i].0@.len() by {
            assert(ops[i].output_wires().len() == results[i].0@.len());
        }
        lemma_store_all_domain(values, ops.take(k), results.take(k));
        lemma_outputs_free(ops, so_far, values, k);
        lemma_outputs_once(ops, k);
        assert(ops[k].output_wires().len() == results[k].0@.len());
        lemma_store_within(so_far, ops[k].output_wires(), results[k].0@, all);
    }
}

/// The contexts between the network phases of a round are those that the operations keep.
proof fn lemma_network_contexts<S: MpcScheme>(
    scheme: S,
    ops: Seq<S::Operation>,
    values: Map<usize, S::Wire>,
    contexts: Seq<S::Context>,
    outputs: Seq<NetworkPhaseOutput<S>>,
    program: Seq<S::Operation>,
    holds: spec_fn(S::Context, int) -> bool,
    at: int,
    j: int,
)
    requires
        network_trace(scheme, ops, values, contexts, outputs),
        kept(scheme, program, holds),
        stands_at(ops, program, at),
        holds(contexts[0], at),
        0 <= j <= ops.len(),
    ensures
        holds(contexts[j], at + j),
    decreases j,
{
    if j > 0 {
        lemma_network_contexts(
            scheme,
            ops,
            values,
            contexts,
            outputs,
            program,
            holds,
            at,
            j - 1,
        );
        let op = ops[j - 1];
        assert(op == program[at + (j - 1)]);
        assert(scheme.network_phase(
            contexts[j - 1],
            op,
            gather(values, op.input_wires()),
            contexts[j],
            Ok(outputs[j - 1]),
        ));
    }
}

/// The contexts between the finalize phases of a round are those that the operations keep.
proof fn lemma_finalize_contexts<S: MpcScheme>(
    scheme: S,
    round: PendingRound<S>,
    data: Seq<Vec<S::NetworkElement>>,
    contexts: Seq<S::Context>,
    results: Seq<FinalizePhaseOutput<S>>,
    program: Seq<S::Operation>,
    holds: spec_fn(S::Context, int) -> bool,
    at: int,
    j: int,
)
    requires
        finalize_trace(scheme, round, data, contexts, results),
        kept(scheme, program, holds),
        holds(contexts[0], at),
        0 <= j <= results.len(),
    ensures
        holds(contexts[j], at),
    decreases j,
{
    if j > 0 {
        lemma_finalize_contexts(scheme, round, data, contexts, results, program, holds, at, j - 1);
        let k = j - 1;
        assert(results[k] == results[k]);
        assert(scheme.finalize_phase(
            contexts[k],
            round.pending@[k],
            data_for(round.counts@, data, k),
            contexts[k + 1],
            Ok(results[k]),
        ));
        assert(holds(contexts[k], at));
    }
}

/// The network operations of a round are played.
proof fn lemma_network_parts<S: MpcScheme>(
    scheme: S,
    ops: Seq<S::Operation>,
    values: Map<usize, S::Wire>,
    contexts: (S::Context, S::Context, S::Context),
    pending: PendingRound<S>,
    exchange: Exchange<S>,
    data: Seq<Vec<S::NetworkElement>>,
    results: Seq<FinalizePhaseOutput<S>>,
    program: Seq<S::Operation>,
    holds: spec_fn(S::Context, int) -> bool,
    at: int,
    all: Map<usize, S::Wire>,
) -> (parts: Seq<Part<S>>)
    requires
        network_start(scheme, ops, values, contexts.0, contexts.1, pending, exchange),
        finalized(scheme, pending, data, contexts.1, contexts.2, results),
        answers(exchange.receive@, contents(data)),
        fitting(ops, results),
        all_outputs(ops).no_duplicates(),
        free(values, all_outputs(ops)),
        forall|j: int, w: WireId|
            0 <= j < ops.len() && #[trigger] ops[j].input_wires().contains(w)
                ==> values.contains_key(w.0),
        kept(scheme, program, holds),
        stands_at(ops, program, at),
        holds(contexts.0, at),
        within(store_all(values, ops, results), all),
    ensures
        all_play(scheme, ops, all, holds, at, parts),
        share(parts, exchange, data),
        holds(contexts.2, at + ops.len()),
        within(values, all),
{
    let (first, outputs) = choose|
        first: Seq<S::Context>,
        outputs: Seq<NetworkPhaseOutput<S>>,
    |
        {
            &&& #[trigger] network_trace(scheme, ops, values, first, outputs)
            &&& first[0] == contexts.0
            &&& first.last() == contexts.1
            &&& pending.holds(outputs)
            &&& exchange.carries(outputs)
        };
    let second = choose|second: Seq<S::Context>|
        {
            &&& #[trigger] finalize_trace(scheme, pending, data, second, results)
            &&& second[0] == contexts.1
            &&& second.last() == contexts.2
        };
    let counts = pending.counts@;
    let parts = Seq::new(
        ops.len(),
        |k: int|
            Part {
                before: first[k],
                inputs: gather(values, ops[k].input_wires()),
                after: first[k + 1],
                output: outputs[k],
                data: portion(contents(data), taken(counts, k), counts[k] as nat),
                middle: second[k],
                end: second[k + 1],
                result: results[k],
            },
    );
    lemma_taken_is_offset(pending, outputs, ops.len() as int);
    assert(receives_of(outputs).take(ops.len() as int) =~= receives_of(outputs));
    lemma_store_all_get(values, ops, results, all, 0);
    assert(store_all(values, ops.take(0), results.take(0)) == values);
    assert forall|j: int| 0 <= j < ops.len() implies (#[trigger] parts[j]).plays(
        scheme,
        ops[j],
        all,
    ) && holds(parts[j].before, at + j) by {
        let op = ops[j];
        lemma_network_contexts(
            scheme,
            ops,
            values,
            first,
            outputs,
            program,
            holds,
            at,
            j,
        );
        assert(scheme.network_phase(
            first[j],
            op,
            gather(values, op.input_wires()),
            first[j + 1],
            Ok(outputs[j]),
        ));
        assert(results[j] == results[j]);
        assert(scheme.finalize_phase(
            second[j],
            pending.pending@[j],
            data_for(counts, data, j),
            second[j + 1],
            Ok(results[j]),
        ));
        lemma_store_all_get(values, ops, results, all, j);
        lemma_gather_within(values, all, op.input_wires());
        lemma_taken_is_offset(pending, outputs, j);
        lemma_taken_is_offset(pending, outputs, j + 1);
        lemma_offset_monotonic(receives_of(outputs), j + 1, ops.len() as int);
        let requests = outputs[j].receive_request@;
        let lists = receives_of(outputs);
        assert(counts[j] == requests.len());
        assert forall|i: int| 0 <= i < requests.len() implies (#[trigger] requests[i]).admits(
            parts[j].data[i].len(),
        ) by {
            lemma_join_index(lists, j, i);
            assert(exchange.receive@[offset(lists, j) + i] == requests[i]);
            assert(parts[j].data[i] == contents(data)[offset(lists, j) + i]);
        }
    }
    lemma_network_contexts(
        scheme,
        ops,
        values,
        first,
        outputs,
        program,
        holds,
        at,
        ops.len() as int,
    );
    lemma_finalize_contexts(
        scheme,
        pending,
        data,
        second,
        results,
        program,
        holds,
        at + ops.len(),
        ops.len() as int,
    );
    assert(part_sends(parts) =~= sends_of(outputs));
    assert(part_receives(parts) =~= receives_of(outputs));
    lemma_portions(counts, contents(data), part_data(parts), ops.len() as int);
    assert(part_data(parts).take(ops.len() as int) =~= part_data(parts));
    assert(contents(data).take(contents(data).len() as int) =~= contents(data));
    parts
}

} // verus!

verus! {

/// A phase of one party: the calls that it consists of.
#[verifier::reject_recursive_types(S)]
pub struct PhaseRun<S: MpcScheme> {
    /// The execution before the phase.
    pub before: ExecutionContext<S>,
    /// The execution after each call.
    pub states: Seq<ExecutionContext<S>>,
    /// The exchange that each call but the last one asks for.
    pub exchanges: Seq<Exchange<S>>,
    /// What each exchange brought.
    pub data: Seq<Seq<Vec<S::NetworkElement>>>,
    /// How many bytes each exchange sent and received.
    pub lens: Seq<(SendLen, RecvLen)>,
    /// How many bytes the phase sent and received, as the last call says.
    pub totals: (SendLen, RecvLen),
}

impl<S: MpcScheme> PhaseRun<S> {
    /// What the call `k` returns.
    pub open spec fn outcome(self, k: int) -> Result<Step<S>, ExecutionContextError> {
        if k < self.exchanges.len() {
            Ok(Step::Exchange(self.exchanges[k]))
        } else {
            Ok(Step::Finished { sent: self.totals.0, received: self.totals.1 })
        }
    }

    /// Whether the exchange `k` is answered and the phase resumes with the answer.
    pub open spec fn goes_on(self, k: int) -> bool {
        &&& answers(self.exchanges[k].receive@, contents(self.data[k]))
        &&& resumes(
            self.states[k],
            self.data[k],
            self.lens[k],
            self.states[k + 1],
            self.outcome(k + 1),
        )
    }

    /// Whether the phase starts with its first call, and goes on until it is finished.
    pub open spec fn valid(self) -> bool {
        &&& self.before.well_formed()
        &&& self.before.state() == ExecutionState::Handshaked || self.before.state()
            == ExecutionState::ReadyOnline
        &&& self.before.unstarted()
        &&& self.states.len() == self.exchanges.len() + 1
        &&& self.data.len() == self.exchanges.len()
        &&& self.lens.len() == self.exchanges.len()
        &&& continues(self.before, 0, (0, 0), self.states[0], self.outcome(0))
        &&& forall|k: int| 0 <= k < self.exchanges.len() ==> #[trigger] self.goes_on(k)
    }

    /// The configuration.
    pub open spec fn config(self) -> MpcConfig<S> {
        self.before.spec_config()
    }

    /// The execution after the phase.
    pub open spec fn last(self) -> ExecutionContext<S> {
        self.states.last()
    }

    /// The execution between the rounds `k - 1` and `k`, and the results of the former.
    spec fn midpoint(self, k: int) -> (ExecutionContext<S>, Seq<FinalizePhaseOutput<S>>) {
        choose|m: (ExecutionContext<S>, Seq<FinalizePhaseOutput<S>>)|
            passes(
                self.states[k - 1],
                self.data[k - 1],
                self.lens[k - 1],
                m.0,
                m.1,
                self.states[k],
                self.outcome(k),
            )
    }

    /// The execution before the round `k`.
    spec fn start(self, k: int) -> ExecutionContext<S> {
        if k <= 0 {
            self.before
        } else {
            self.midpoint(k).0
        }
    }

    /// How many bytes were sent and received before the round `k`.
    pub open spec fn tally(self, k: int) -> (int, int) {
        (
            total(self.lens.take(k).map_values(|l: (SendLen, RecvLen)| l.0)) as int,
            total(self.lens.take(k).map_values(|l: (SendLen, RecvLen)| l.1)) as int,
        )
    }
}

/// One more round adds its bytes.
proof fn lemma_tally_next<S: MpcScheme>(run: PhaseRun<S>, k: int)
    requires
        0 <= k < run.lens.len(),
    ensures
        run.tally(k + 1) == (run.tally(k).0 + run.lens[k].0, run.tally(k).1 + run.lens[k].1),
{
    let sent = |l: (SendLen, RecvLen)| l.0;
    let received = |l: (SendLen, RecvLen)| l.1;
    assert(run.lens.take(k + 1).map_values(sent).drop_last() =~= run.lens.take(k).map_values(sent));
    assert(run.lens.take(k + 1).map_values(received).drop_last() =~= run.lens.take(k).map_values(
        received,
    ));
}

/// The operations of a round stand behind those of the rounds before it.
pub(crate) proof fn lemma_run_order_at<S: MpcScheme>(rounds: Seq<Round<S>>, k: int)
    requires
        0 <= k < rounds.len(),
    ensures
        ({
            let at = run_order(rounds.take(k)).len() as int;
            let n = rounds[k].local().len();
            &&& stands_at(rounds[k].local(), run_order(rounds), at)
            &&& stands_at(rounds[k].network(), run_order(rounds), at + n)
            &&& run_order(rounds.take(k + 1)).len() == at + n + rounds[k].network().len()
        }),
    decreases rounds.len(),
{
    let rest = rounds.drop_last();
    assert(rounds.take(k + 1).drop_last() =~= rounds.take(k));
    if k < rounds.len() - 1 {
        lemma_run_order_at(rest, k);
        assert(rest.take(k) =~= rounds.take(k));
    } else {
        assert(rounds.take(k) =~= rest);
    }
}

/// Where the operations of a round start in the program.
pub open spec fn round_at<S: MpcScheme>(config: MpcConfig<S>, r: int) -> int {
    run_order(all_rounds(config).take(r)).len() as int
}

/// Local operations add the wires that they produce.
pub(crate) proof fn lemma_local_run_domain<S: MpcScheme>(
    scheme: S,
    ops: Seq<S::Operation>,
    before: (S::Context, Map<usize, S::Wire>),
    after: (S::Context, Map<usize, S::Wire>),
)
    requires
        local_run(scheme, ops, before, after),
    ensures
        after.1.dom() == before.1.dom() + ids(all_outputs(ops)),
{
    let states = choose|states: Seq<(S::Context, Map<usize, S::Wire>)>|
        {
            &&& #[trigger] local_trace(scheme, ops, states)
            &&& states[0] == before
            &&& states.last() == after
        };
    let any = |context: S::Context, q: int| true;
    assert(ops.take(ops.len() as int) =~= ops);
    lemma_local_states(scheme, ops, states, ops, any, 0, ops.len() as int);
}

/// The wires that have values while the round `r` waits for its exchange.
pub open spec fn wires_waiting<S: MpcScheme>(config: MpcConfig<S>, r: int) -> Set<usize> {
    wires_after(config, r) + ids(all_outputs(all_rounds(config)[r].local()))
}

/// A round that is completed adds the wires of its network operations.
proof fn lemma_completed<S: MpcScheme>(
    waiting: ExecutionContext<S>,
    data: Seq<Vec<S::NetworkElement>>,
    results: Seq<FinalizePhaseOutput<S>>,
    middle: ExecutionContext<S>,
)
    requires
        waiting.waiting() is Some,
        waiting.awaits(waiting.waiting().unwrap().0 as int, waiting.waiting().unwrap().1),
        waiting.wires().dom() == wires_waiting(
            waiting.spec_config(),
            waiting.base() + waiting.waiting().unwrap().0,
        ),
        completes(waiting, data, results, middle),
    ensures
        fitting(
            all_rounds(waiting.spec_config())[waiting.base()
                + waiting.waiting().unwrap().0].network(),
            results,
        ),
        middle.wires().dom() == wires_after(
            waiting.spec_config(),
            waiting.base() + waiting.waiting().unwrap().0 + 1,
        ),
{
    let (k, pending) = waiting.waiting().unwrap();
    let at = waiting.base() + k;
    let round = all_rounds(waiting.spec_config())[at];
    lemma_results_fit(
        waiting.spec_scheme(),
        round.network(),
        pending,
        data,
        waiting.context().unwrap(),
        middle.context().unwrap(),
        results,
    );
    lemma_store_all_domain(waiting.wires(), round.network(), results);
    lemma_wires_after_step(waiting.spec_config(), at);
}

impl<S: MpcScheme> PhaseRun<S> {
    /// Whether the rounds before `k` are done, and the call `k` goes on from there.
    #[verifier::opaque]
    spec fn between(self, k: int) -> bool {
        &&& self.config().well_formed()
        &&& self.start(k).spec_config() == self.config()
        &&& self.start(k).state() == self.before.state()
        &&& self.start(k).context() is Some
        &&& self.start(k).base() + k <= self.start(k).end()
        &&& self.start(k).wires().dom() == wires_after(self.config(), self.before.base() + k)
        &&& continues(self.start(k), k, self.tally(k), self.states[k], self.outcome(k))
    }

    /// Whether the phase waits in the round `k`, and completes the round afterwards.
    #[verifier::opaque]
    spec fn waits(self, k: int) -> bool {
        let waiting = self.states[k];
        let next = self.midpoint(k + 1);
        &&& self.start(k).base() + k < self.start(k).end()
        &&& waiting.spec_config() == self.config()
        &&& waiting.state() == self.before.state()
        &&& waiting.tally() == self.tally(k)
        &&& waiting.waiting() is Some
        &&& waiting.waiting().unwrap().0 == k
        &&& waiting.awaits(k, waiting.waiting().unwrap().1)
        &&& waiting.wires().dom() == wires_waiting(self.config(), self.before.base() + k)
        &&& completes(waiting, self.data[k], next.1, next.0)
        &&& continues(
            next.0,
            k + 1,
            (waiting.tally().0 + self.lens[k].0, waiting.tally().1 + self.lens[k].1),
            self.states[k + 1],
            self.outcome(k + 1),
        )
    }
}

/// One round leads to the next.
proof fn lemma_next_round<S: MpcScheme>(run: PhaseRun<S>, k: int)
    requires
        0 <= k < run.lens.len(),
        run.config().well_formed(),
        run.waits(k),
        run.start(k).state() == run.before.state(),
        run.start(k).spec_config() == run.config(),
    ensures
        run.between(k + 1),
{
    reveal(PhaseRun::between);
    reveal(PhaseRun::waits);
    let waiting = run.states[k];
    let next = run.midpoint(k + 1);
    lemma_tally_next(run, k);
    lemma_completed(waiting, run.data[k], next.1, next.0);
}

/// The state of a phase between its rounds and while it waits.
proof fn lemma_between_rounds<S: MpcScheme>(run: PhaseRun<S>, k: int)
    requires
        run.valid(),
        0 <= k <= run.exchanges.len(),
    ensures
        run.between(k),
        k < run.exchanges.len() ==> run.waits(k),
    decreases k,
{
    if k == 0 {
        reveal(PhaseRun::between);
        lemma_well_formed(run.before);
        assert(run.lens.take(0).map_values(|l: (SendLen, RecvLen)| l.0) =~= Seq::empty());
        assert(run.lens.take(0).map_values(|l: (SendLen, RecvLen)| l.1) =~= Seq::empty());
    } else {
        lemma_between_rounds(run, k - 1);
        assert(run.config().well_formed() && run.start(k - 1).state() == run.before.state()
            && run.start(k - 1).spec_config() == run.config()) by {
            reveal(PhaseRun::between);
        }
        lemma_next_round(run, k - 1);
    }
    if k < run.exchanges.len() {
        lemma_waiting(run, k);
    }
}

/// The state of a phase while it waits.
proof fn lemma_waiting<S: MpcScheme>(run: PhaseRun<S>, k: int)
    requires
        run.valid(),
        0 <= k < run.exchanges.len(),
        run.between(k),
    ensures
        run.waits(k),
{
    reveal(PhaseRun::between);
    reveal(PhaseRun::waits);
    let config = run.config();
    let waiting = run.states[k];
    let scheme = waiting.spec_scheme();
    let start = run.start(k);
    let round = all_rounds(config)[start.base() + k];
    let from = (start.context().unwrap(), start.wires());
    let to = (waiting.context().unwrap(), waiting.wires());
    let pending = waiting.waiting().unwrap().1;
    let exchange = run.exchanges[k];
    lemma_started_is_issued(scheme, round, from, to, pending, exchange);
    let context = choose|context: S::Context| #[trigger]
        local_run(scheme, round.local(), from, (context, to.1)) && network_start(
            scheme,
            round.network(),
            to.1,
            context,
            to.0,
            pending,
            exchange,
        );
    lemma_local_run_domain(scheme, round.local(), from, (context, to.1));
    assert(run.goes_on(k));
    let (middle, results) = choose|
        middle: ExecutionContext<S>,
        results: Seq<FinalizePhaseOutput<S>>,
    | #[trigger]
        passes(
            waiting,
            run.data[k],
            run.lens[k],
            middle,
            results,
            run.states[k + 1],
            run.outcome(k + 1),
        );
    let m = (middle, results);
    assert(passes(
        waiting,
        run.data[k],
        run.lens[k],
        m.0,
        m.1,
        run.states[k + 1],
        run.outcome(k + 1),
    ));
}

/// What holds where a phase finishes.
proof fn lemma_finishes<S: MpcScheme>(
    before: ExecutionContext<S>,
    k: int,
    tally: (int, int),
    after: ExecutionContext<S>,
    sent: SendLen,
    received: RecvLen,
)
    requires
        continues(before, k, tally, after, Ok(Step::Finished { sent, received })),
    ensures
        (sent as int, received as int) == tally,
        before.base() + k == before.end(),
        after.spec_config() == before.spec_config(),
        after.state() == next_state(before.state()),
        after.wires() == before.wires(),
        after.context() == before.context(),
{
}

/// What holds after a phase.
proof fn lemma_phase_end<S: MpcScheme>(run: PhaseRun<S>)
    requires
        run.valid(),
    ensures
        ({
            let n = run.exchanges.len() as int;
            let start = run.start(n);
            &&& run.tally(n) == (run.totals.0 as int, run.totals.1 as int)
            &&& run.before.base() + n == run.before.end()
            &&& run.last().spec_config() == run.config()
            &&& run.last().state() == next_state(run.before.state())
            &&& run.last().wires() == start.wires()
            &&& run.last().context() == start.context()
            &&& start.context() is Some
            &&& start.wires().dom() == wires_after(run.config(), run.before.end())
        }),
{
    let n = run.exchanges.len() as int;
    let start = run.start(n);
    lemma_between_rounds(run, n);
    assert(start.spec_config() == run.config() && start.state() == run.before.state()
        && start.context() is Some && start.wires().dom() == wires_after(
        run.config(),
        run.before.base() + n,
    ) && continues(start, n, run.tally(n), run.states[n], run.outcome(n))) by {
        reveal(PhaseRun::between);
    }
    lemma_finishes(start, n, run.tally(n), run.states[n], run.totals.0, run.totals.1);
}

/// The bytes that a phase says it has sent and received are those of all its exchanges.
pub proof fn law_phase_counts_its_bytes<S: MpcScheme>(run: PhaseRun<S>)
    requires
        run.valid(),
    ensures
        run.totals.0 == total(run.lens.map_values(|l: (SendLen, RecvLen)| l.0)),
        run.totals.1 == total(run.lens.map_values(|l: (SendLen, RecvLen)| l.1)),
{
    lemma_phase_end(run);
    assert(run.lens.take(run.exchanges.len() as int) =~= run.lens);
}

} // verus!

verus! {

/// Whether the parts of a round, local and network ones, are how a party takes part in it that
/// ends up with `wires`.
pub open spec fn round_plays<S: MpcScheme>(
    scheme: S,
    round: Round<S>,
    wires: Map<usize, S::Wire>,
    holds: spec_fn(S::Context, int) -> bool,
    at: int,
    exchange: Exchange<S>,
    data: Seq<Vec<S::NetworkElement>>,
    parts: (Seq<Part<S>>, Seq<Part<S>>),
) -> bool {
    &&& all_play(scheme, round.local(), wires, holds, at, parts.0)
    &&& all_play(scheme, round.network(), wires, holds, at + round.local().len(), parts.1)
    &&& share(parts.1, exchange, data)
}

/// The network operations of a round produce different wires.
proof fn lemma_network_distinct<S: MpcScheme>(rounds: Seq<Round<S>>, at: int)
    requires
        all_outputs(run_order(rounds)).no_duplicates(),
        0 <= at < rounds.len(),
    ensures
        all_outputs(rounds[at].network()).no_duplicates(),
{
    let round = rounds[at];
    let outs = all_outputs(round.network());
    let have = run_order(rounds.take(at));
    lemma_run_order_prefix(rounds, at + 1);
    assert(rounds.take(at + 1).drop_last() =~= rounds.take(at));
    lemma_all_outputs_add(have, round.local());
    lemma_all_outputs_add(have + round.local(), round.network());
    let first = all_outputs(have) + all_outputs(round.local());
    let so_far = first + outs;
    let all = all_outputs(run_order(rounds));
    assert forall|x: int, y: int| 0 <= x < y < outs.len() implies outs[x] != outs[y] by {
        let n = first.len();
        assert(all.take(so_far.len() as int)[n + x] == all[n + x]);
        assert(all.take(so_far.len() as int)[n + y] == all[n + y]);
        assert(so_far[n + x] == outs[x]);
        assert(so_far[n + y] == outs[y]);
        assert(all[n + x] != all[n + y]);
    }
}

/// The network operations of a round find what they consume, and produce different wires.
proof fn lemma_network_ready<S: MpcScheme>(
    config: MpcConfig<S>,
    at: int,
    before: Map<usize, S::Wire>,
    values: Map<usize, S::Wire>,
)
    requires
        config.well_formed(),
        0 <= at < all_rounds(config).len(),
        before.dom() == wires_after(config, at),
        values.dom() == wires_waiting(config, at),
    ensures
        feasible(all_rounds(config)[at].local(), before),
        all_outputs(all_rounds(config)[at].network()).no_duplicates(),
        forall|j: int, w: WireId|
            0 <= j < all_rounds(config)[at].network().len()
                && #[trigger] all_rounds(config)[at].network()[j].input_wires().contains(w)
                ==> values.contains_key(w.0),
{
    let rounds = all_rounds(config);
    let round = rounds[at];
    lemma_round_feasible(config, at, before);
    lemma_network_distinct(rounds, at);
    assert forall|j: int, w: WireId|
        0 <= j < round.network().len()
            && #[trigger] round.network()[j].input_wires().contains(w) implies values.contains_key(
        w.0,
    ) by {
        assert(w == WireId(w.0));
        assert(before.contains_key(w.0) || all_outputs(round.local()).contains(w));
        assert(values.dom().contains(w.0));
    }
}

/// Where no wire of a round has a value before it, its local operations produce new wires.
pub(crate) proof fn lemma_fresh_local<S: MpcScheme>(
    config: MpcConfig<S>,
    r: int,
    before: (S::Context, Map<usize, S::Wire>),
    after: (S::Context, Map<usize, S::Wire>),
    k: int,
)
    requires
        config.well_formed(),
        0 <= r < all_rounds(config).len(),
        before.1.dom() == wires_after(config, r),
        0 <= k < all_rounds(config)[r].local().len(),
        local_run(
            config.spec_circuit().spec_scheme(),
            all_rounds(config)[r].local().take(k),
            before,
            after,
        ),
    ensures
        free(after.1, all_rounds(config)[r].local()[k].output_wires()),
{
    let rounds = all_rounds(config);
    let ops = rounds[r].local();
    let outs = all_outputs(ops);
    let have = all_outputs(run_order(rounds.take(r)));
    lemma_outputs_new(rounds, r);
    assert forall|i: int| 0 <= i < outs.len() implies !before.1.contains_key(
        #[trigger] outs[i].0,
    ) by {
        let w = outs[i];
        assert(w == WireId(w.0));
        assert(outs.contains(w));
        assert(ids(have).contains(w.0) == have.contains(w));
    }
    lemma_local_run_domain(config.spec_circuit().spec_scheme(), ops.take(k), before, after);
    lemma_outputs_free(ops, after.1, before.1, k);
}

/// Where no other wire has a value while a round waits, its network operations produce new wires.
pub(crate) proof fn lemma_fresh_network<S: MpcScheme>(
    config: MpcConfig<S>,
    r: int,
    values: Map<usize, S::Wire>,
)
    requires
        config.well_formed(),
        0 <= r < all_rounds(config).len(),
        values.dom() == wires_waiting(config, r),
    ensures
        free(values, all_outputs(all_rounds(config)[r].network())),
{
    let rounds = all_rounds(config);
    let round = rounds[r];
    let have = run_order(rounds.take(r));
    let first = all_outputs(have) + all_outputs(round.local());
    let outs = all_outputs(round.network());
    let all = all_outputs(run_order(rounds));
    lemma_run_order_prefix(rounds, r + 1);
    assert(rounds.take(r + 1).drop_last() =~= rounds.take(r));
    lemma_all_outputs_add(have, round.local());
    lemma_all_outputs_add(have + round.local(), round.network());
    lemma_ids_add(all_outputs(have), all_outputs(round.local()));
    assert forall|j: int| 0 <= j < outs.len() implies !values.contains_key(#[trigger] outs[j].0) by {
        let w = outs[j];
        assert(w == WireId(w.0));
        if first.contains(w) {
            let so_far = first + outs;
            let i = first.index_of(w);
            assert(all.take(so_far.len() as int)[i] == all[i]);
            assert(all.take(so_far.len() as int)[first.len() + j] == all[first.len() + j]);
            assert(so_far[i] == w);
            assert(so_far[first.len() + j] == w);
            assert(all[i] != all[first.len() + j]);
        }
        assert(ids(first).contains(w.0) == first.contains(w));
        assert(values.dom().contains(w.0) == ids(first).contains(w.0));
    }
}

/// Only local operations run without an exchange.
proof fn lemma_starts_locally<S: MpcScheme>(config: MpcConfig<S>, at: int)
    requires
        config.well_formed(),
        0 <= at < all_rounds(config).len(),
    ensures
        starts_locally(config.spec_circuit().spec_scheme(), all_rounds(config)[at]),
{
    let circuit = config.spec_circuit();
    let n = circuit.offline().len() as int;
    if at < n {
        assert(all_rounds(config)[at] == circuit.offline()[at]);
    } else {
        assert(all_rounds(config)[at] == circuit.online()[at - n]);
    }
}

/// The operations of a round are played.
proof fn lemma_round_parts<S: MpcScheme>(
    run: PhaseRun<S>,
    k: int,
    holds: spec_fn(S::Context, int) -> bool,
    all: Map<usize, S::Wire>,
) -> (parts: (Seq<Part<S>>, Seq<Part<S>>))
    requires
        run.valid(),
        0 <= k < run.exchanges.len(),
        within(run.start(k + 1).wires(), all),
        kept(run.before.spec_scheme(), run_order(all_rounds(run.config())), holds),
        holds(run.start(k).context().unwrap(), round_at(run.config(), run.before.base() + k)),
    ensures
        round_plays(
            run.before.spec_scheme(),
            all_rounds(run.config())[run.before.base() + k],
            all,
            holds,
            round_at(run.config(), run.before.base() + k),
            run.exchanges[k],
            run.data[k],
            parts,
        ),
        holds(
            run.start(k + 1).context().unwrap(),
            round_at(run.config(), run.before.base() + k + 1),
        ),
        within(run.start(k).wires(), all),
{
    lemma_between_rounds(run, k);
    reveal(PhaseRun::between);
    reveal(PhaseRun::waits);
    let config = run.config();
    let scheme = run.before.spec_scheme();
    let r = run.before.base() + k;
    let at = round_at(config, r);
    let program = run_order(all_rounds(config));
    let start = run.start(k);
    let waiting = run.states[k];
    let (next, results) = run.midpoint(k + 1);
    let round = all_rounds(config)[r];
    let from = (start.context().unwrap(), start.wires());
    let to = (waiting.context().unwrap(), waiting.wires());
    let pending = waiting.waiting().unwrap().1;
    let exchange = run.exchanges[k];
    let context = choose|context: S::Context| #[trigger]
        local_run(scheme, round.local(), from, (context, to.1)) && network_start(
            scheme,
            round.network(),
            to.1,
            context,
            to.0,
            pending,
            exchange,
        );
    assert(run.goes_on(k));
    lemma_completed(waiting, run.data[k], results, next);
    lemma_network_ready(config, r, start.wires(), waiting.wires());
    lemma_run_order_at(all_rounds(config), r);
    lemma_starts_locally(config, r);
    lemma_between_parts(
        scheme,
        round,
        (from, context, to, next.context().unwrap()),
        pending,
        exchange,
        run.data[k],
        results,
        program,
        holds,
        at,
        all,
    )
}

/// The operations of a round are played, given the contexts between its phases.
proof fn lemma_between_parts<S: MpcScheme>(
    scheme: S,
    round: Round<S>,
    states: (
        (S::Context, Map<usize, S::Wire>),
        S::Context,
        (S::Context, Map<usize, S::Wire>),
        S::Context,
    ),
    pending: PendingRound<S>,
    exchange: Exchange<S>,
    data: Seq<Vec<S::NetworkElement>>,
    results: Seq<FinalizePhaseOutput<S>>,
    program: Seq<S::Operation>,
    holds: spec_fn(S::Context, int) -> bool,
    at: int,
    all: Map<usize, S::Wire>,
) -> (parts: (Seq<Part<S>>, Seq<Part<S>>))
    requires
        local_run(scheme, round.local(), states.0, (states.1, states.2.1)),
        network_start(
            scheme,
            round.network(),
            states.2.1,
            states.1,
            states.2.0,
            pending,
            exchange,
        ),
        finalized(scheme, pending, data, states.2.0, states.3, results),
        answers(exchange.receive@, contents(data)),
        fitting(round.network(), results),
        feasible(round.local(), states.0.1),
        all_outputs(round.network()).no_duplicates(),
        free(states.2.1, all_outputs(round.network())),
        forall|j: int, w: WireId|
            0 <= j < round.network().len() && #[trigger] round.network()[j].input_wires().contains(w)
                ==> states.2.1.contains_key(w.0),
        starts_locally(scheme, round),
        kept(scheme, program, holds),
        stands_at(round.local(), program, at),
        stands_at(round.network(), program, at + round.local().len()),
        holds(states.0.0, at),
        within(store_all(states.2.1, round.network(), results), all),
    ensures
        round_plays(scheme, round, all, holds, at, exchange, data, parts),
        holds(states.3, at + round.local().len() + round.network().len()),
        within(states.0.1, all),
{
    let n = round.local().len() as int;
    let states_before = choose|trace: Seq<(S::Context, Map<usize, S::Wire>)>|
        {
            &&& #[trigger] local_trace(scheme, round.local(), trace)
            &&& trace[0] == states.0
            &&& trace.last() == (states.1, states.2.1)
        };
    lemma_local_states(scheme, round.local(), states_before, program, holds, at, n);
    let networks = lemma_network_parts(
        scheme,
        round.network(),
        states.2.1,
        (states.1, states.2.0, states.3),
        pending,
        exchange,
        data,
        results,
        program,
        holds,
        at + n,
        all,
    );
    let locals = lemma_local_parts(
        scheme,
        round.local(),
        states.0,
        (states.1, states.2.1),
        program,
        holds,
        at,
        all,
    );
    (locals, networks)
}

/// What has a value between the rounds of a phase has it after the phase.
proof fn lemma_phase_within<S: MpcScheme>(run: PhaseRun<S>, k: int, all: Map<usize, S::Wire>)
    requires
        run.valid(),
        0 <= k <= run.exchanges.len(),
        within(run.last().wires(), all),
    ensures
        within(run.start(k).wires(), all),
    decreases run.exchanges.len() - k,
{
    if k == run.exchanges.len() {
        lemma_phase_end(run);
    } else {
        lemma_phase_within(run, k + 1, all);
        let any = |context: S::Context, q: int| true;
        let parts = lemma_round_parts(run, k, any, all);
    }
}

/// What the operations keep of the context holds between the rounds.
proof fn lemma_phase_holds<S: MpcScheme>(
    run: PhaseRun<S>,
    k: int,
    holds: spec_fn(S::Context, int) -> bool,
)
    requires
        run.valid(),
        0 <= k <= run.exchanges.len(),
        kept(run.before.spec_scheme(), run_order(all_rounds(run.config())), holds),
        holds(run.before.context().unwrap(), round_at(run.config(), run.before.base())),
    ensures
        holds(run.start(k).context().unwrap(), round_at(run.config(), run.before.base() + k)),
    decreases k,
{
    if k > 0 {
        lemma_phase_holds(run, k - 1, holds);
        lemma_phase_within(run, k, run.last().wires());
        let parts = lemma_round_parts(run, k - 1, holds, run.last().wires());
    }
}

/// After a phase the execution is in the next state, with the wires of all rounds so far, and what
/// the operations keep holds of its context.
pub proof fn law_phase_leads_on<S: MpcScheme>(
    run: PhaseRun<S>,
    holds: spec_fn(S::Context, int) -> bool,
)
    requires
        run.valid(),
        kept(run.before.spec_scheme(), run_order(all_rounds(run.config())), holds),
        holds(run.before.context().unwrap(), round_at(run.config(), run.before.base())),
    ensures
        run.exchanges.len() == run.before.end() - run.before.base(),
        run.last().spec_config() == run.config(),
        run.last().state() == next_state(run.before.state()),
        run.last().context() is Some,
        holds(run.last().context().unwrap(), round_at(run.config(), run.before.end())),
        run.last().wires().dom() == wires_after(run.config(), run.before.end()),
        within(run.before.wires(), run.last().wires()),
{
    lemma_phase_end(run);
    lemma_phase_holds(run, run.exchanges.len() as int, holds);
    lemma_phase_within(run, 0, run.last().wires());
}

/// Each round of a phase is played, operation by operation, on the wires that the party ends up
/// with.
pub proof fn law_rounds_are_played<S: MpcScheme>(
    run: PhaseRun<S>,
    k: int,
    holds: spec_fn(S::Context, int) -> bool,
    all: Map<usize, S::Wire>,
) -> (parts: (Seq<Part<S>>, Seq<Part<S>>))
    requires
        run.valid(),
        0 <= k < run.exchanges.len(),
        within(run.last().wires(), all),
        kept(run.before.spec_scheme(), run_order(all_rounds(run.config())), holds),
        holds(run.before.context().unwrap(), round_at(run.config(), run.before.base())),
    ensures
        round_plays(
            run.before.spec_scheme(),
            all_rounds(run.config())[run.before.base() + k],
            all,
            holds,
            round_at(run.config(), run.before.base() + k),
            run.exchanges[k],
            run.data[k],
            parts,
        ),
{
    lemma_phase_holds(run, k, holds);
    lemma_phase_within(run, k + 1, all);
    lemma_round_parts(run, k, holds, all)
}

} // verus!

verus! {

/// The whole execution of one party: both phases, and the inputs that are handed in between them.
#[verifier::reject_recursive_types(S)]
pub struct Story<S: MpcScheme> {
    /// The offline phase.
    pub offline: PhaseRun<S>,
    /// The inputs of the user.
    pub inputs: Seq<(WireId, S::Input)>,
    /// The online phase.
    pub online: PhaseRun<S>,
}

impl<S: MpcScheme> Story<S> {
    /// Whether the context is one that the handshake has established, the inputs are accepted after
    /// the offline phase, and the online phase follows.
    pub open spec fn valid(self) -> bool {
        &&& self.offline.valid()
        &&& self.offline.before.state() == ExecutionState::Handshaked
        &&& self.offline.before.establishes(Ok(self.offline.before.context().unwrap()))
        &&& self.online.valid()
        &&& self.online.before.state() == ExecutionState::ReadyOnline
        &&& self.online.config() == self.config()
        &&& self.online.before.wires() == self.offline.last().wires()
        &&& inputs_outcome(
            given(self.inputs),
            network_inputs_by(self.config().spec_circuit().online(), self.config().id()),
            Ok(()),
        )
        &&& self.config().spec_circuit().spec_scheme().prepared(
            self.offline.last().context().unwrap(),
            self.inputs,
            self.online.before.context().unwrap(),
        )
    }

    /// The configuration.
    pub open spec fn config(self) -> MpcConfig<S> {
        self.offline.config()
    }

    /// The rounds of both phases.
    pub open spec fn rounds(self) -> Seq<Round<S>> {
        all_rounds(self.config())
    }

    /// The exchange of the round `r`.
    pub open spec fn exchange(self, r: int) -> Exchange<S> {
        if r < self.offline.exchanges.len() {
            self.offline.exchanges[r]
        } else {
            self.online.exchanges[r - self.offline.exchanges.len()]
        }
    }

    /// What the exchange of the round `r` brought.
    pub open spec fn data(self, r: int) -> Seq<Vec<S::NetworkElement>> {
        if r < self.offline.exchanges.len() {
            self.offline.data[r]
        } else {
            self.online.data[r - self.offline.exchanges.len()]
        }
    }

    /// The values of the wires in the end.
    pub open spec fn wires(self) -> Map<usize, S::Wire> {
        self.online.last().wires()
    }
}

/// An execution ends with a value for each wire of the circuit.
pub proof fn law_execution_fills_all_wires<S: MpcScheme>(story: Story<S>)
    requires
        story.valid(),
    ensures
        story.online.last().state() == ExecutionState::Finished,
        story.offline.exchanges.len() == story.config().spec_circuit().offline().len(),
        story.online.exchanges.len() == story.config().spec_circuit().online().len(),
        story.wires().dom() == ids(all_outputs(run_order(story.rounds()))),
{
    let any = |context: S::Context, q: int| true;
    law_phase_leads_on(story.offline, any);
    law_phase_leads_on(story.online, any);
    assert(story.rounds().take(story.rounds().len() as int) =~= story.rounds());
}

} // verus!
