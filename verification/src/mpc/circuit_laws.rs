//! What the rounds of a circuit are, in terms of its operations and their wires.

use vstd::prelude::*;

use crate::mpc::circuit::{
    all_inputs, all_outputs, compiled, graph, inputs_by, inputs_of, is_first_missing,
    is_first_repeated, lemma_all_outputs_add, lemma_dependency, lemma_graph_well_formed,
    lemma_realized_order, lemma_run_order_add, lemma_wire_among, network_inputs_by, outputs_of,
    pick, producer, realizes, round_ready, run_order, runnable, wired, MpcCircuit, Round, WireId,
};
use crate::mpc::schedule::{
    due, earliest, flat, law_complete_iff_acyclic, law_each_operation_once, law_earliest,
    law_phases, law_rounds_wait_for_something, lemma_flat_contains, lemma_online_settled,
    online_phase, schedule, Graph, RoundPlan,
};
use crate::mpc::scheme::{MpcScheme, Operation};
use crate::seqs::{join, lemma_join_add, lemma_join_contains, lemma_join_unique};

verus! {

/// The wires that operations produce and consume are those of each of them, in order.
pub proof fn law_wires_are_listed_in_order<O: Operation>(a: Seq<O>, b: Seq<O>, op: O)
    ensures
        all_outputs(Seq::<O>::empty()) == Seq::<WireId>::empty(),
        all_inputs(Seq::<O>::empty()) == Seq::<WireId>::empty(),
        all_outputs(seq![op]) == op.output_wires(),
        all_inputs(seq![op]) == op.input_wires(),
        all_outputs(a + b) == all_outputs(a) + all_outputs(b),
        all_inputs(a + b) == all_inputs(a) + all_inputs(b),
{
    let one = seq![op];
    let none = Seq::<O>::empty();
    assert(outputs_of(none) =~= Seq::empty());
    assert(inputs_of(none) =~= Seq::empty());
    assert(outputs_of(one).drop_last() =~= Seq::empty());
    assert(inputs_of(one).drop_last() =~= Seq::empty());
    assert(join(outputs_of(one).drop_last()) =~= Seq::empty());
    assert(join(inputs_of(one).drop_last()) =~= Seq::empty());
    assert(all_outputs(one) =~= op.output_wires());
    assert(all_inputs(one) =~= op.input_wires());
    lemma_all_outputs_add(a, b);
    assert(inputs_of(a + b) =~= inputs_of(a) + inputs_of(b));
    lemma_join_add(inputs_of(a), inputs_of(b));
}

/// Rounds run one after the other, and each runs its local operations before its network ones.
pub proof fn law_rounds_run_in_order<S: MpcScheme>(
    a: Seq<Round<S>>,
    b: Seq<Round<S>>,
    round: Round<S>,
)
    ensures
        run_order(Seq::<Round<S>>::empty()) == Seq::<S::Operation>::empty(),
        run_order(seq![round]) == round.local() + round.network(),
        run_order(a + b) == run_order(a) + run_order(b),
{
    let one = seq![round];
    assert(one.drop_last() =~= Seq::empty());
    assert(one.last() == round);
    assert(run_order(one.drop_last()) =~= Seq::empty());
    assert(run_order(one) =~= round.local() + round.network());
    lemma_run_order_add(a, b);
}

/// The input wires of a party are the outputs of those of the network operations that are its
/// inputs, in order.
pub proof fn law_inputs_are_listed_in_order<S: MpcScheme>(
    a: Seq<S::Operation>,
    b: Seq<S::Operation>,
    op: S::Operation,
    rounds: Seq<Round<S>>,
    round: Round<S>,
    party: usize,
)
    ensures
        inputs_by(Seq::<S::Operation>::empty(), party) == Seq::<WireId>::empty(),
        op.input_party() == Some(party) ==> inputs_by(seq![op], party) == seq![
            op.output_wires()[0],
        ],
        op.input_party() != Some(party) ==> inputs_by(seq![op], party) == Seq::<WireId>::empty(),
        inputs_by(a + b, party) == inputs_by(a, party) + inputs_by(b, party),
        network_inputs_by(Seq::<Round<S>>::empty(), party) == Seq::<WireId>::empty(),
        network_inputs_by(rounds.push(round), party) == network_inputs_by(rounds, party)
            + inputs_by(round.network(), party),
    decreases b.len(),
{
    let one = seq![op];
    assert(one.drop_last() =~= Seq::empty());
    assert(one.last() == op);
    assert(inputs_by(one.drop_last(), party) =~= Seq::empty());
    if op.input_party() == Some(party) {
        assert(inputs_by(one, party) =~= seq![op.output_wires()[0]]);
    }
    assert(rounds.push(round).drop_last() =~= rounds);
    if b.len() == 0 {
        assert(a + b =~= a);
        assert(inputs_by(a, party) + inputs_by(b, party) =~= inputs_by(a, party));
    } else {
        law_inputs_are_listed_in_order(a, b.drop_last(), op, rounds, round, party);
        assert((a + b).drop_last() =~= a + b.drop_last());
        assert(inputs_by(a + b, party) =~= inputs_by(a, party) + inputs_by(b, party));
    }
}

/// A wire that is reported as produced again is produced twice, and no other wire is before it; one
/// is reported exactly where some wire is produced twice.
pub proof fn law_first_repeated_wire(wires: Seq<WireId>, wire: WireId)
    ensures
        is_first_repeated(wires, wire) <==> exists|i: int, k: int|
            0 <= i < k < wires.len() && (#[trigger] wires[i]) == wire && (#[trigger] wires[k])
                == wire && forall|x: int, y: int|
                0 <= x < y < k ==> (#[trigger] wires[x]) != (#[trigger] wires[y]),
        is_first_repeated(wires, wire) ==> !wires.no_duplicates(),
{
    if is_first_repeated(wires, wire) {
        let k = choose|k: int|
            0 <= k < wires.len() && #[trigger] wires[k] == wire && wires.take(k).contains(wire)
                && wires.take(k).no_duplicates();
        let i = wires.take(k).index_of(wire);
        assert(wires[i] == wire);
        assert forall|x: int, y: int| 0 <= x < y < k implies (#[trigger] wires[x]) != (
        #[trigger] wires[y]) by {
            assert(wires.take(k)[x] != wires.take(k)[y]);
        }
        assert(wires[i] == wires[k]);
    }
    if exists|i: int, k: int|
        0 <= i < k < wires.len() && (#[trigger] wires[i]) == wire && (#[trigger] wires[k]) == wire
            && forall|x: int, y: int|
            0 <= x < y < k ==> (#[trigger] wires[x]) != (#[trigger] wires[y]) {
        let (i, k) = choose|i: int, k: int|
            0 <= i < k < wires.len() && (#[trigger] wires[i]) == wire && (#[trigger] wires[k])
                == wire && forall|x: int, y: int|
                0 <= x < y < k ==> (#[trigger] wires[x]) != (#[trigger] wires[y]);
        assert(wires.take(k)[i] == wire);
        assert forall|x: int, y: int|
            0 <= x < wires.take(k).len() && 0 <= y < wires.take(k).len() && x != y implies wires.take(
            k,
        )[x] != wires.take(k)[y] by {
            if x < y {
                assert(wires[x] != wires[y]);
            } else {
                assert(wires[y] != wires[x]);
            }
        }
        assert(wires[k] == wire);
    }
}

/// A wire that is reported as missing is consumed and not produced, and all wires that are consumed
/// before it are produced.
pub proof fn law_first_missing_wire(wires: Seq<WireId>, produced: Seq<WireId>, wire: WireId)
    ensures
        is_first_missing(wires, produced, wire) <==> exists|k: int|
            0 <= k < wires.len() && (#[trigger] wires[k]) == wire && !produced.contains(wire)
                && forall|j: int| 0 <= j < k ==> produced.contains(#[trigger] wires[j]),
        is_first_missing(wires, produced, wire) ==> wires.contains(wire) && !produced.contains(
            wire,
        ),
{
}

/// One operation depends on another one exactly where it consumes a wire that this one produces.
pub proof fn law_dependencies_are_wires<S: MpcScheme>(
    scheme: S,
    ops: Seq<S::Operation>,
    c: int,
    d: int,
)
    requires
        wired(ops),
        0 <= c < ops.len(),
        0 <= d < ops.len(),
    ensures
        graph(scheme, ops).len() == ops.len(),
        graph(scheme, ops).depends(c, d) <==> exists|w: WireId| #[trigger]
            ops[c].input_wires().contains(w) && ops[d].output_wires().contains(w),
        graph(scheme, ops).input[c] <==> ops[c].input_party() is Some,
        graph(scheme, ops).local[c] <==> scheme.local(ops[c]),
{
    let g = graph(scheme, ops);
    if g.depends(c, d) {
        let j = g.deps[c].index_of(d);
        let w = ops[c].input_wires()[j];
        assert(ops[c].input_wires().contains(w));
        lemma_dependency(ops, c, w);
    }
    if exists|w: WireId| #[trigger]
        ops[c].input_wires().contains(w) && ops[d].output_wires().contains(w) {
        let w = choose|w: WireId| #[trigger]
            ops[c].input_wires().contains(w) && ops[d].output_wires().contains(w);
        lemma_dependency(ops, c, w);
        lemma_join_unique(outputs_of(ops), producer(ops, w), d, w);
    }
}

/// Operations of which each consumes only what others before it produce do not depend on
/// themselves.
pub proof fn law_operations_in_order_are_acyclic<S: MpcScheme>(scheme: S, ops: Seq<S::Operation>)
    requires
        wired(ops),
        forall|c: int, w: WireId|
            0 <= c < ops.len() && #[trigger] ops[c].input_wires().contains(w) ==> all_outputs(
                ops.take(c),
            ).contains(w),
    ensures
        graph(scheme, ops).acyclic(),
{
    let g = graph(scheme, ops);
    let rank = |c: int| if c < 0 {
        0nat
    } else {
        c as nat
    };
    lemma_graph_well_formed(scheme, ops);
    assert forall|c: int, d: int| #[trigger] g.depends(c, d) implies rank(d) < rank(c) by {
        assert(g.has(d));
        law_dependencies_are_wires(scheme, ops, c, d);
        let w = choose|w: WireId| #[trigger]
            ops[c].input_wires().contains(w) && ops[d].output_wires().contains(w);
        lemma_join_contains(outputs_of(ops.take(c)), w);
        let p = choose|p: int|
            0 <= p < outputs_of(ops.take(c)).len() && (#[trigger] outputs_of(
                ops.take(c),
            )[p]).contains(w);
        assert(outputs_of(ops)[p].contains(w));
        assert(outputs_of(ops)[d].contains(w));
        lemma_join_unique(outputs_of(ops), p, d, w);
    }
    assert(g.ranked(rank));
}

/// Where operations depend on each other in a circle, they are not acyclic.
pub proof fn law_circles_are_cyclic(g: Graph, path: Seq<int>)
    requires
        path.len() >= 2,
        path.first() == path.last(),
        forall|i: int| 0 <= i < path.len() - 1 ==> g.depends(#[trigger] path[i], path[i + 1]),
    ensures
        !g.acyclic(),
{
    if g.acyclic() {
        let rank = choose|rank: spec_fn(int) -> nat| g.ranked(rank);
        lemma_ranks_fall(g, path, rank, path.len() - 1);
    }
}

proof fn lemma_ranks_fall(g: Graph, path: Seq<int>, rank: spec_fn(int) -> nat, i: int)
    requires
        g.ranked(rank),
        0 < i < path.len(),
        forall|i: int| 0 <= i < path.len() - 1 ==> g.depends(#[trigger] path[i], path[i + 1]),
    ensures
        rank(path[i]) < rank(path[0]),
    decreases i,
{
    assert(g.depends(path[i - 1], path[i - 1 + 1]));
    if i > 1 {
        lemma_ranks_fall(g, path, rank, i - 1);
    }
}

/// The operations of a round that is ready consume only what it or those before it produce.
proof fn lemma_closed_round<S: MpcScheme>(
    first: Seq<S::Operation>,
    round: Round<S>,
    i: int,
    w: WireId,
)
    requires
        round_ready(all_outputs(first), round),
        first.len() <= i < (first + round.local() + round.network()).len(),
        (first + round.local() + round.network())[i].input_wires().contains(w),
    ensures
        all_outputs(first).contains(w) || all_outputs(round.local()).contains(w),
{
    let local = round.local();
    let j = i - first.len();
    if j < local.len() {
        assert(local[j].input_wires().contains(w));
        if !all_outputs(first).contains(w) {
            let part = all_outputs(local.take(j));
            assert(part.contains(w));
            assert(local =~= local.take(j) + local.skip(j));
            lemma_all_outputs_add(local.take(j), local.skip(j));
            assert(all_outputs(local)[part.index_of(w)] == w);
        }
    } else {
        assert(round.network()[j - local.len()].input_wires().contains(w));
    }
}

/// The wires of three lists are among those of all of them.
proof fn lemma_among_three(a: Seq<WireId>, b: Seq<WireId>, c: Seq<WireId>, w: WireId)
    requires
        a.contains(w) || b.contains(w),
    ensures
        (a + b + c).contains(w),
{
    if a.contains(w) {
        assert((a + b + c)[a.index_of(w)] == w);
    } else {
        assert((a + b + c)[a.len() + b.index_of(w)] == w);
    }
}

/// The operations of the first rounds consume only what they produce.
proof fn lemma_closed<S: MpcScheme>(rounds: Seq<Round<S>>, n: int, i: int, w: WireId)
    requires
        runnable(rounds),
        0 <= n <= rounds.len(),
        0 <= i < run_order(rounds.take(n)).len(),
        run_order(rounds.take(n))[i].input_wires().contains(w),
    ensures
        all_outputs(run_order(rounds.take(n))).contains(w),
    decreases n,
{
    if n > 0 {
        let round = rounds[n - 1];
        let first = run_order(rounds.take(n - 1));
        assert(rounds.take(n).drop_last() =~= rounds.take(n - 1));
        assert(run_order(rounds.take(n)) == first + round.local() + round.network());
        lemma_all_outputs_add(first, round.local());
        lemma_all_outputs_add(first + round.local(), round.network());
        if i < first.len() {
            assert(first[i] == run_order(rounds.take(n))[i]);
            lemma_closed(rounds, n - 1, i, w);
        } else {
            assert(round_ready(all_outputs(first), round));
            lemma_closed_round(first, round, i, w);
        }
        lemma_among_three(
            all_outputs(first),
            all_outputs(round.local()),
            all_outputs(round.network()),
            w,
        );
    }
}

/// The offline phase holds no input and consumes only what it produces.
pub proof fn law_offline_phase_needs_no_input<S: MpcScheme>(
    operations: Seq<S::Operation>,
    scheme: S,
    circuit: MpcCircuit<S>,
    i: int,
)
    requires
        compiled(operations, scheme, circuit),
        0 <= i < run_order(circuit.offline()).len(),
    ensures
        run_order(circuit.offline())[i].input_party() is None,
        forall|w: WireId| #[trigger]
            run_order(circuit.offline())[i].input_wires().contains(w) ==> all_outputs(
                run_order(circuit.offline()),
            ).contains(w),
{
    let rounds = circuit.offline() + circuit.online();
    let n = circuit.offline().len() as int;
    let ops = run_order(circuit.offline());
    assert(rounds.take(n) =~= circuit.offline());
    assert forall|w: WireId| #[trigger] ops[i].input_wires().contains(w) implies all_outputs(
        ops,
    ).contains(w) by {
        lemma_closed(rounds, n, i, w);
    }
    let g = graph(scheme, operations);
    let plan = schedule(g);
    lemma_graph_well_formed(scheme, operations);
    lemma_realized_order(circuit.offline(), operations, plan.offline);
    let c = flat(plan.offline)[i];
    law_phases(g);
    lemma_numbers(g);
    assert(flat(plan.offline).contains(c));
    if operations[c].input_party() is Some {
        assert(g.input[c]);
        assert(g.input_within(c, 0));
    }
}

/// The operations that have a place are operations.
proof fn lemma_numbers(g: Graph)
    requires
        g.well_formed(),
    ensures
        forall|c: int| #[trigger] flat(schedule(g).offline).contains(c) ==> g.has(c),
        forall|c: int| #[trigger] flat(schedule(g).online).contains(c) ==> g.has(c),
{
    law_each_operation_once(g);
    lemma_online_settled(g);
    let a = flat(schedule(g).offline);
    let b = flat(schedule(g).online);
    assert forall|c: int| #[trigger] a.contains(c) implies g.has(c) by {
        assert((a + b)[a.index_of(c)] == c);
        assert(schedule(g).done.contains(c));
        assert(online_phase(g).knows(c));
    }
    assert forall|c: int| #[trigger] b.contains(c) implies g.has(c) by {
        assert((a + b)[a.len() + b.index_of(c)] == c);
        assert(schedule(g).done.contains(c));
        assert(online_phase(g).knows(c));
    }
}

/// Each operation of the online phase is an input, or consumes a wire that the online phase
/// produces.
pub proof fn law_online_phase_depends_on_inputs<S: MpcScheme>(
    operations: Seq<S::Operation>,
    scheme: S,
    circuit: MpcCircuit<S>,
    i: int,
)
    requires
        compiled(operations, scheme, circuit),
        0 <= i < run_order(circuit.online()).len(),
    ensures
        run_order(circuit.online())[i].input_party() is Some || exists|w: WireId| #[trigger]
            run_order(circuit.online())[i].input_wires().contains(w) && all_outputs(
                run_order(circuit.online()),
            ).contains(w),
{
    let g = graph(scheme, operations);
    let plan = schedule(g);
    let ops = run_order(circuit.online());
    lemma_graph_well_formed(scheme, operations);
    lemma_realized_order(circuit.online(), operations, plan.online);
    law_phases(g);
    law_complete_iff_acyclic(g);
    law_each_operation_once(g);
    lemma_numbers(g);
    let order = flat(plan.online);
    let c = order[i];
    assert(order.contains(c));
    assert(g.input_dependent(c));
    let steps = choose|steps: nat| g.input_within(c, steps);
    if !g.input[c] {
        let d = choose|d: int| #[trigger]
            g.depends(c, d) && g.input_within(d, (steps - 1) as nat);
        assert(g.input_dependent(d));
        assert(g.has(d));
        assert(plan.done.contains(d));
        let before = flat(plan.offline);
        assert(!before.contains(d));
        let at = (before + order).index_of(d);
        if at < before.len() {
            assert(before[at] == d);
        } else {
            assert(order[at - before.len()] == d);
        }
        assert(order.contains(d));
        law_dependencies_are_wires(scheme, operations, c, d);
        let w = choose|w: WireId| #[trigger]
            operations[c].input_wires().contains(w) && operations[d].output_wires().contains(w);
        lemma_wire_among(operations, order, d, w);
        assert(ops[i] == operations[c]);
    }
}

/// After the first round of its phase, each operation consumes a wire that a local operation of its
/// own round or a network operation of the round before produces: it could not run earlier.
pub proof fn law_operations_run_as_early_as_they_can<S: MpcScheme>(
    operations: Seq<S::Operation>,
    scheme: S,
    circuit: MpcCircuit<S>,
    online: bool,
    k: int,
    op: S::Operation,
)
    requires
        compiled(operations, scheme, circuit),
        ({
            let rounds = if online {
                circuit.online()
            } else {
                circuit.offline()
            };
            &&& 0 < k < rounds.len()
            &&& rounds[k].local().contains(op) || rounds[k].network().contains(op)
        }),
    ensures
        ({
            let rounds = if online {
                circuit.online()
            } else {
                circuit.offline()
            };
            exists|w: WireId| #[trigger]
                op.input_wires().contains(w) && (all_outputs(rounds[k].local()).contains(w)
                    || all_outputs(rounds[k - 1].network()).contains(w))
        }),
{
    let g = graph(scheme, operations);
    let plan = schedule(g);
    lemma_graph_well_formed(scheme, operations);
    law_earliest(g);
    lemma_numbers(g);
    if online {
        lemma_due(scheme, operations, circuit.online(), plan.online, k, op);
    } else {
        lemma_due(scheme, operations, circuit.offline(), plan.offline, k, op);
    }
}

/// An operation of the round `k` is due in it.
proof fn lemma_due<S: MpcScheme>(
    scheme: S,
    operations: Seq<S::Operation>,
    rounds: Seq<Round<S>>,
    plans: Seq<RoundPlan>,
    k: int,
    op: S::Operation,
)
    requires
        wired(operations),
        realizes(rounds, operations, plans),
        earliest(graph(scheme, operations), plans),
        forall|c: int| #[trigger] flat(plans).contains(c) ==> 0 <= c < operations.len(),
        0 < k < rounds.len(),
        rounds[k].local().contains(op) || rounds[k].network().contains(op),
    ensures
        exists|w: WireId| #[trigger]
            op.input_wires().contains(w) && (all_outputs(rounds[k].local()).contains(w)
                || all_outputs(rounds[k - 1].network()).contains(w)),
{
    let local = plans[k].local;
    let network = plans[k].network;
    let both = local + network;
    assert(rounds[k].local() == pick(operations, local));
    assert(rounds[k].network() == pick(operations, network));
    assert(rounds[k - 1].network() == pick(operations, plans[k - 1].network));
    let c = if rounds[k].local().contains(op) {
        local[rounds[k].local().index_of(op)]
    } else {
        network[rounds[k].network().index_of(op)]
    };
    assert(both.contains(c)) by {
        if rounds[k].local().contains(op) {
            assert(both[rounds[k].local().index_of(op)] == c);
        } else {
            assert(both[local.len() + rounds[k].network().index_of(op)] == c);
        }
    }
    assert(local.contains(c) || network.contains(c));
    lemma_flat_contains(plans, k, c);
    lemma_due_wire(scheme, operations, c, local, plans[k - 1].network);
}

/// An operation that is due consumes a wire of what it waits for.
proof fn lemma_due_wire<S: MpcScheme>(
    scheme: S,
    operations: Seq<S::Operation>,
    c: int,
    local: Seq<int>,
    network: Seq<int>,
)
    requires
        wired(operations),
        0 <= c < operations.len(),
        due(graph(scheme, operations), c, local, network),
    ensures
        exists|w: WireId| #[trigger]
            operations[c].input_wires().contains(w) && (all_outputs(
                pick(operations, local),
            ).contains(w) || all_outputs(pick(operations, network)).contains(w)),
{
    let g = graph(scheme, operations);
    let d = choose|d: int| #[trigger]
        g.depends(c, d) && (local.contains(d) || network.contains(d));
    lemma_graph_well_formed(scheme, operations);
    assert(g.has(d));
    law_dependencies_are_wires(scheme, operations, c, d);
    let w = choose|w: WireId| #[trigger]
        operations[c].input_wires().contains(w) && operations[d].output_wires().contains(w);
    if local.contains(d) {
        lemma_wire_among(operations, local, d, w);
    } else {
        lemma_wire_among(operations, network, d, w);
    }
}

/// Every round but the last one of its phase has an operation for which the next round waits.
pub proof fn law_only_exchanges_end_rounds<S: MpcScheme>(
    operations: Seq<S::Operation>,
    scheme: S,
    circuit: MpcCircuit<S>,
    k: int,
)
    requires
        compiled(operations, scheme, circuit),
    ensures
        0 <= k < circuit.offline().len() - 1 ==> circuit.offline()[k].network().len() > 0,
        0 <= k < circuit.online().len() - 1 ==> circuit.online()[k].network().len() > 0,
{
    let g = graph(scheme, operations);
    let plan = schedule(g);
    lemma_graph_well_formed(scheme, operations);
    law_rounds_wait_for_something(g, k);
    if 0 <= k < circuit.offline().len() - 1 {
        assert(circuit.offline()[k].network() == pick(operations, plan.offline[k].network));
    }
    if 0 <= k < circuit.online().len() - 1 {
        assert(circuit.online()[k].network() == pick(operations, plan.online[k].network));
    }
}

} // verus!
