//! Circuits: operations over wires, sorted into rounds.

use std::collections::VecDeque;

use vstd::prelude::*;

use crate::mpc::arrangement::is_arranged;
use crate::mpc::linking::{find_producers, link};
use crate::mpc::schedule::{
    flat, law_complete_iff_acyclic, law_each_operation_once, law_in_order, law_partitioned,
    law_phases, law_rounds_bounded, lemma_flat_add, lemma_flat_contains, lemma_offline_settled,
    lemma_online_settled, offline_phase, online_phase, round_in_order, schedule, select,
    sources, Graph, RoundPlan,
};
use crate::mpc::scheme::{MpcScheme, Operation};
use crate::mpc::sorting::{ints, lemma_missing_none, missing, sort_phase, Sorter};
use crate::seqs::{
    join, lemma_join_contains, lemma_join_find, lemma_join_index, lemma_join_unique, offset,
};
use crate::text::{decimal, usize_to_text};

verus! {

/// The identifier of a wire of a circuit.
///
/// A wire connects the output of one operation to the inputs of others.
#[derive(Debug, Copy, Clone, PartialEq, Eq, Hash, Structural)]
pub struct WireId(pub usize);

impl WireId {
    /// The identifier in decimal notation.
    pub fn display(&self) -> (s: String)
        ensures
            s@ == decimal(self.0 as nat),
    {
        usize_to_text(self.0)
    }
}

/// A synchronization step of the protocol.
///
/// The local operations of a round run first, one after the other, without any interaction;
/// the network operations then run together, in one exchange with the other parties.
pub struct Round<S: MpcScheme> {
    local_operations: Vec<S::Operation>,
    network_operations: Vec<S::Operation>,
}

impl<S: MpcScheme> Round<S> {
    /// The local operations of the round.
    pub closed spec fn local(&self) -> Seq<S::Operation> {
        self.local_operations@
    }

    /// The network operations of the round.
    pub closed spec fn network(&self) -> Seq<S::Operation> {
        self.network_operations@
    }

    /// A round of the given operations.
    pub fn from_operations(
        local_operations: Vec<S::Operation>,
        network_operations: Vec<S::Operation>,
    ) -> (round: Self)
        ensures
            round.local() == local_operations@,
            round.network() == network_operations@,
    {
        Round { local_operations, network_operations }
    }

    /// Returns a slice of the local operations scheduled for this round.
    pub fn local_operations(&self) -> (ops: &[S::Operation])
        ensures
            ops@ == self.local(),
    {
        self.local_operations.as_slice()
    }

    /// Returns a slice of the network-dependent operations scheduled for this round.
    pub fn network_operations(&self) -> (ops: &[S::Operation])
        ensures
            ops@ == self.network(),
    {
        self.network_operations.as_slice()
    }
}

/// An execution plan: operations sorted into rounds, those that no user input reaches
/// (the offline phase) apart from the others (the online phase).
pub struct MpcCircuit<S: MpcScheme> {
    scheme: S,
    offline_rounds: Vec<Round<S>>,
    online_rounds: Vec<Round<S>>,
}

/// Why a circuit is refused.
#[derive(Debug, PartialEq, Eq, Structural)]
pub enum MpcCircuitError {
    /// The scheme finds the circuit unsound.
    CircuitUnsound,
    /// A wire is produced more than once.
    WireProducedManyTimes { wire: WireId },
    /// A wire is consumed that nothing produces.
    WireConsumedButNotProduced { wire: WireId },
    /// The operations depend on each other in a circle.
    CircuitCyclic,
    /// There are no operations.
    EmptyCircuit,
}

/// The wires that each of the operations produces.
pub open spec fn outputs_of<O: Operation>(ops: Seq<O>) -> Seq<Seq<WireId>> {
    Seq::new(ops.len(), |i: int| ops[i].output_wires())
}

/// The wires that each of the operations consumes.
pub open spec fn inputs_of<O: Operation>(ops: Seq<O>) -> Seq<Seq<WireId>> {
    Seq::new(ops.len(), |i: int| ops[i].input_wires())
}

/// The wires that the operations produce, in order.
pub open spec fn all_outputs<O: Operation>(ops: Seq<O>) -> Seq<WireId> {
    join(outputs_of(ops))
}

/// The wires that the operations consume, in order.
pub open spec fn all_inputs<O: Operation>(ops: Seq<O>) -> Seq<WireId> {
    join(inputs_of(ops))
}

/// Whether `wire` is the first one of `wires` that occurred before.
pub open spec fn is_first_repeated(wires: Seq<WireId>, wire: WireId) -> bool {
    exists|k: int|
        0 <= k < wires.len() && #[trigger] wires[k] == wire && wires.take(k).contains(wire)
            && wires.take(k).no_duplicates()
}

/// Whether `wire` is the first one of `wires` that is not among `produced`.
pub open spec fn is_first_missing(wires: Seq<WireId>, produced: Seq<WireId>, wire: WireId) -> bool {
    exists|k: int|
        0 <= k < wires.len() && #[trigger] wires[k] == wire && !produced.contains(wire) && (forall|
            j: int,
        |
            0 <= j < k ==> produced.contains(#[trigger] wires[j]))
}

/// Whether all of `wires` are among `produced`.
pub open spec fn all_produced(wires: Seq<WireId>, produced: Seq<WireId>) -> bool {
    forall|k: int| 0 <= k < wires.len() ==> produced.contains(#[trigger] wires[k])
}

/// The operation that produces `wire`.
pub open spec fn producer<O: Operation>(ops: Seq<O>, wire: WireId) -> int {
    choose|p: int| 0 <= p < ops.len() && (#[trigger] ops[p]).output_wires().contains(wire)
}

/// For each operation, the operations that produce the wires it consumes.
pub open spec fn deps_of<O: Operation>(ops: Seq<O>) -> Seq<Seq<int>> {
    Seq::new(
        ops.len(),
        |c: int|
            Seq::new(
                ops[c].input_wires().len(),
                |j: int| producer(ops, ops[c].input_wires()[j]),
            ),
    )
}

/// The dependencies between the operations.
pub open spec fn graph<S: MpcScheme>(scheme: S, ops: Seq<S::Operation>) -> Graph {
    Graph {
        deps: deps_of(ops),
        input: Seq::new(ops.len(), |c: int| ops[c].input_party() is Some),
        local: Seq::new(ops.len(), |c: int| scheme.local(ops[c])),
    }
}

/// The operations with the given numbers.
pub open spec fn pick<O>(ops: Seq<O>, numbers: Seq<int>) -> Seq<O> {
    Seq::new(numbers.len(), |i: int| ops[numbers[i]])
}

/// Whether `rounds` are the rounds `plans`, with each operation in place of its number.
pub open spec fn realizes<S: MpcScheme>(
    rounds: Seq<Round<S>>,
    ops: Seq<S::Operation>,
    plans: Seq<RoundPlan>,
) -> bool {
    &&& rounds.len() == plans.len()
    &&& forall|k: int|
        0 <= k < rounds.len() ==> (#[trigger] rounds[k]).local() == pick(ops, plans[k].local)
            && rounds[k].network() == pick(ops, plans[k].network)
}

} // verus!

verus! {

/// The operations of the rounds, in the order in which they run.
pub open spec fn run_order<S: MpcScheme>(rounds: Seq<Round<S>>) -> Seq<S::Operation>
    decreases rounds.len(),
{
    if rounds.len() == 0 {
        Seq::empty()
    } else {
        run_order(rounds.drop_last()) + rounds.last().local() + rounds.last().network()
    }
}

/// Whether a round can run where the wires `have` have values: each local operation finds the
/// wires that it consumes there, or among the outputs of the local operations before it; each
/// network operation there, or among the outputs of the local operations of the round.
pub open spec fn round_ready<S: MpcScheme>(have: Seq<WireId>, round: Round<S>) -> bool {
    &&& forall|j: int, w: WireId|
        0 <= j < round.local().len() && #[trigger] round.local()[j].input_wires().contains(w)
            ==> have.contains(w) || all_outputs(round.local().take(j)).contains(w)
    &&& forall|j: int, w: WireId|
        0 <= j < round.network().len() && #[trigger] round.network()[j].input_wires().contains(w)
            ==> have.contains(w) || all_outputs(round.local()).contains(w)
}

/// Whether the rounds can run one after the other: no wire is produced twice, and none is
/// consumed before it is produced.
pub open spec fn runnable<S: MpcScheme>(rounds: Seq<Round<S>>) -> bool {
    &&& all_outputs(run_order(rounds)).no_duplicates()
    &&& forall|k: int|
        0 <= k < rounds.len() ==> round_ready(
            all_outputs(run_order(rounds.take(k))),
            #[trigger] rounds[k],
        )
}

/// Whether the round holds local operations apart from the others.
pub open spec fn round_sorted<S: MpcScheme>(scheme: S, round: Round<S>) -> bool {
    &&& forall|j: int| 0 <= j < round.local().len() ==> scheme.local(#[trigger] round.local()[j])
    &&& forall|j: int|
        0 <= j < round.network().len() ==> !scheme.local(#[trigger] round.network()[j])
}

/// Whether the round holds no input.
pub open spec fn round_without_input<S: MpcScheme>(round: Round<S>) -> bool {
    &&& forall|j: int|
        0 <= j < round.local().len() ==> (#[trigger] round.local()[j]).input_party() is None
    &&& forall|j: int|
        0 <= j < round.network().len() ==> (#[trigger] round.network()[j]).input_party() is None
}

impl<S: MpcScheme> MpcCircuit<S> {
    /// The scheme of the circuit.
    pub closed spec fn spec_scheme(&self) -> S {
        self.scheme
    }

    /// The rounds of the offline phase.
    pub closed spec fn offline(&self) -> Seq<Round<S>> {
        self.offline_rounds@
    }

    /// The rounds of the online phase.
    pub closed spec fn online(&self) -> Seq<Round<S>> {
        self.online_rounds@
    }

    /// Whether the circuit can be run: its rounds are arranged, and its scheme can run them.
    pub open spec fn well_formed(&self) -> bool {
        &&& self.spec_scheme().usable()
        &&& arranged(self.spec_scheme(), self.offline(), self.online())
    }
}

/// Whether the rounds of both phases can run one after the other, and only local operations run
/// without an exchange.
pub open spec fn arranged<S: MpcScheme>(
    scheme: S,
    offline: Seq<Round<S>>,
    online: Seq<Round<S>>,
) -> bool {
    &&& runnable(offline + online)
    &&& forall|k: int| 0 <= k < offline.len() ==> starts_locally(scheme, #[trigger] offline[k])
    &&& forall|k: int| 0 <= k < online.len() ==> starts_locally(scheme, #[trigger] online[k])
}

/// Whether the operations of the round that run without an exchange are local.
pub open spec fn starts_locally<S: MpcScheme>(scheme: S, round: Round<S>) -> bool {
    forall|j: int| 0 <= j < round.local().len() ==> scheme.local(#[trigger] round.local()[j])
}

/// Whether every round of both phases is sorted, and the inputs are operations of the online phase.
pub open spec fn sorted_phases<S: MpcScheme>(
    scheme: S,
    offline: Seq<Round<S>>,
    online: Seq<Round<S>>,
) -> bool {
    &&& forall|k: int| 0 <= k < offline.len() ==> round_sorted(scheme, #[trigger] offline[k])
    &&& forall|k: int| 0 <= k < online.len() ==> round_sorted(scheme, #[trigger] online[k])
    &&& forall|k: int| 0 <= k < offline.len() ==> round_without_input(#[trigger] offline[k])
}

/// Whether `circuit` is the circuit of sound operations that form an acyclic graph: its rounds
/// are those of the schedule.
pub open spec fn compiled<S: MpcScheme>(
    operations: Seq<S::Operation>,
    scheme: S,
    circuit: MpcCircuit<S>,
) -> bool {
    let plan = schedule(graph(scheme, operations));
    &&& operations.len() > 0
    &&& scheme.sound(operations)
    &&& wired(operations)
    &&& graph(scheme, operations).acyclic()
    &&& circuit.spec_scheme() == scheme
    &&& realizes(circuit.offline(), operations, plan.offline)
    &&& realizes(circuit.online(), operations, plan.online)
    &&& circuit.offline().len() + circuit.online().len() <= operations.len() + 1
    &&& circuit.well_formed()
    &&& sorted_phases(scheme, circuit.offline(), circuit.online())
}

/// Whether the wires of the operations fit together: each is produced once, and only those are
/// consumed.
pub open spec fn wired<O: Operation>(ops: Seq<O>) -> bool {
    &&& all_outputs(ops).no_duplicates()
    &&& all_produced(all_inputs(ops), all_outputs(ops))
}

} // verus!

verus! {

/// Rounds that realize a plan run its operations in its order.
pub(crate) proof fn lemma_realized_order<S: MpcScheme>(
    rounds: Seq<Round<S>>,
    ops: Seq<S::Operation>,
    plans: Seq<RoundPlan>,
)
    requires
        realizes(rounds, ops, plans),
    ensures
        run_order(rounds) == pick(ops, flat(plans)),
    decreases rounds.len(),
{
    if rounds.len() == 0 {
        assert(pick(ops, flat(plans)) =~= Seq::empty());
    } else {
        let k = rounds.len() - 1;
        assert forall|i: int| 0 <= i < k implies (#[trigger] rounds.drop_last()[i]).local() == pick(
            ops,
            plans.drop_last()[i].local,
        ) && rounds.drop_last()[i].network() == pick(ops, plans.drop_last()[i].network) by {
            assert(rounds[i] == rounds.drop_last()[i]);
        }
        lemma_realized_order(rounds.drop_last(), ops, plans.drop_last());
        assert(rounds[k].local() == pick(ops, plans[k].local));
        assert(run_order(rounds) =~= pick(ops, flat(plans)));
    }
}

/// The outputs of operations that are picked once each stay distinct.
proof fn lemma_picked_distinct<O: Operation>(ops: Seq<O>, order: Seq<int>)
    requires
        all_outputs(ops).no_duplicates(),
        order.no_duplicates(),
        forall|i: int| 0 <= i < order.len() ==> 0 <= #[trigger] order[i] < ops.len(),
    ensures
        all_outputs(pick(ops, order)).no_duplicates(),
{
    let lists = outputs_of(pick(ops, order));
    let all = join(lists);
    let outs = outputs_of(ops);
    assert forall|x: int, y: int| 0 <= x < all.len() && 0 <= y < all.len() && x != y implies all[x]
        != all[y] by {
        let a = lemma_join_find(lists, x);
        let b = lemma_join_find(lists, y);
        let w = all[x];
        assert(lists[a.0] == outs[order[a.0]]);
        assert(lists[b.0] == outs[order[b.0]]);
        if all[x] == all[y] {
            assert(outs[order[a.0]].contains(w));
            assert(outs[order[b.0]].contains(w));
            lemma_join_unique(outs, order[a.0], order[b.0], w);
            assert(a.0 == b.0);
            lemma_join_index(outs, order[a.0], a.1);
            lemma_join_index(outs, order[a.0], b.1);
        }
    }
}

/// A wire of an operation is among the outputs of any operations that include its producer.
pub(crate) proof fn lemma_wire_among<O: Operation>(ops: Seq<O>, order: Seq<int>, d: int, w: WireId)
    requires
        order.contains(d),
        0 <= d < ops.len(),
        ops[d].output_wires().contains(w),
    ensures
        all_outputs(pick(ops, order)).contains(w),
{
    let lists = outputs_of(pick(ops, order));
    let i = order.index_of(d);
    assert(lists[i].contains(w));
    lemma_join_contains(lists, w);
}

/// An operation depends on the producer of each wire it consumes.
pub(crate) proof fn lemma_dependency<O: Operation>(ops: Seq<O>, c: int, w: WireId)
    requires
        wired(ops),
        0 <= c < ops.len(),
        ops[c].input_wires().contains(w),
    ensures
        deps_of(ops)[c].contains(producer(ops, w)),
        0 <= producer(ops, w) < ops.len(),
        ops[producer(ops, w)].output_wires().contains(w),
{
    let ins = inputs_of(ops);
    let j = ops[c].input_wires().index_of(w);
    lemma_join_index(ins, c, j);
    assert(all_outputs(ops).contains(all_inputs(ops)[offset(ins, c) + j]));
    lemma_join_contains(outputs_of(ops), w);
    let p = choose|p: int| 0 <= p < ops.len() && (#[trigger] outputs_of(ops)[p]).contains(w);
    assert(ops[p].output_wires().contains(w));
    assert(deps_of(ops)[c][j] == producer(ops, w));
}

/// A round in order finds its wires.
proof fn lemma_round_ready<S: MpcScheme>(
    g: Graph,
    ops: Seq<S::Operation>,
    ran: Seq<int>,
    plan: RoundPlan,
    round: Round<S>,
)
    requires
        wired(ops),
        g.deps == deps_of(ops),
        round_in_order(g, ran, plan),
        round.local() == pick(ops, plan.local),
        round.network() == pick(ops, plan.network),
        forall|i: int| 0 <= i < plan.local.len() ==> g.has(#[trigger] plan.local[i]),
        forall|i: int| 0 <= i < plan.network.len() ==> g.has(#[trigger] plan.network[i]),
    ensures
        round_ready(all_outputs(pick(ops, ran)), round),
{
    let have = all_outputs(pick(ops, ran));
    assert forall|j: int, w: WireId|
        0 <= j < round.local().len() && #[trigger] round.local()[j].input_wires().contains(
            w,
        ) implies have.contains(w) || all_outputs(round.local().take(j)).contains(w) by {
        let c = plan.local[j];
        let d = producer(ops, w);
        lemma_dependency(ops, c, w);
        assert(g.depends(plan.local[j], d));
        if ran.contains(d) {
            lemma_wire_among(ops, ran, d, w);
        } else {
            lemma_wire_among(ops, plan.local.take(j), d, w);
            assert(pick(ops, plan.local.take(j)) =~= round.local().take(j));
        }
    }
    assert forall|j: int, w: WireId|
        0 <= j < round.network().len() && #[trigger] round.network()[j].input_wires().contains(
            w,
        ) implies have.contains(w) || all_outputs(round.local()).contains(w) by {
        let c = plan.network[j];
        let d = producer(ops, w);
        lemma_dependency(ops, c, w);
        assert(g.depends(plan.network[j], d));
        if ran.contains(d) {
            lemma_wire_among(ops, ran, d, w);
        } else {
            lemma_wire_among(ops, plan.local, d, w);
        }
    }
}

} // verus!

verus! {

/// The rounds of a schedule can run one after the other.
proof fn lemma_schedule_runnable<S: MpcScheme>(
    scheme: S,
    ops: Seq<S::Operation>,
    offline: Seq<Round<S>>,
    online: Seq<Round<S>>,
)
    requires
        wired(ops),
        graph(scheme, ops).well_formed(),
        realizes(offline, ops, schedule(graph(scheme, ops)).offline),
        realizes(online, ops, schedule(graph(scheme, ops)).online),
    ensures
        runnable(offline + online),
{
    let g = graph(scheme, ops);
    let plan = schedule(g);
    let plans = plan.offline + plan.online;
    let rounds = offline + online;
    law_each_operation_once(g);
    law_in_order(g);
    lemma_online_settled(g);
    lemma_flat_add(plan.offline, plan.online);
    assert forall|k: int| 0 <= k < rounds.len() implies (#[trigger] rounds[k]).local() == pick(
        ops,
        plans[k].local,
    ) && rounds[k].network() == pick(ops, plans[k].network) by {
        if k < offline.len() {
            assert(rounds[k] == offline[k]);
        } else {
            assert(rounds[k] == online[k - offline.len()]);
        }
    }
    lemma_realized_order(rounds, ops, plans);
    let order = flat(plans);
    assert forall|c: int| #[trigger] order.contains(c) implies g.has(c) by {
        assert(plan.done.contains(c));
        assert(online_phase(g).knows(c));
    }
    assert forall|i: int| 0 <= i < order.len() implies 0 <= #[trigger] order[i] < ops.len() by {
        assert(order.contains(order[i]));
    }
    lemma_picked_distinct(ops, order);
    assert forall|k: int| 0 <= k < rounds.len() implies round_ready(
        all_outputs(run_order(rounds.take(k))),
        #[trigger] rounds[k],
    ) by {
        assert(realizes(rounds.take(k), ops, plans.take(k))) by {
            assert forall|i: int| 0 <= i < k implies (#[trigger] rounds.take(k)[i]).local() == pick(
                ops,
                plans.take(k)[i].local,
            ) && rounds.take(k)[i].network() == pick(ops, plans.take(k)[i].network) by {
                assert(rounds[i] == rounds.take(k)[i]);
            }
        }
        lemma_realized_order(rounds.take(k), ops, plans.take(k));
        let ran = flat(plans.take(k));
        if k < offline.len() {
            assert(plans.take(k) =~= plan.offline.take(k));
            assert(plans[k] == plan.offline[k]);
            assert(Seq::<int>::empty() + ran =~= ran);
            assert(round_in_order(g, ran, plans[k]));
        } else {
            let m = k - offline.len();
            assert(plans.take(k) =~= plan.offline + plan.online.take(m));
            lemma_flat_add(plan.offline, plan.online.take(m));
            assert(plans[k] == plan.online[m]);
            assert(round_in_order(g, ran, plans[k]));
        }
        assert forall|i: int| 0 <= i < plans[k].local.len() implies g.has(#[trigger] plans[k].local[i]) by {
            lemma_flat_contains(plans, k, plans[k].local[i]);
        }
        assert forall|i: int| 0 <= i < plans[k].network.len() implies g.has(
            #[trigger] plans[k].network[i],
        ) by {
            lemma_flat_contains(plans, k, plans[k].network[i]);
        }
        lemma_round_ready(g, ops, ran, plans[k], rounds[k]);
    }
}

/// The rounds of a schedule are sorted, and those of its offline phase hold no input.
proof fn lemma_schedule_sorted<S: MpcScheme>(
    scheme: S,
    ops: Seq<S::Operation>,
    offline: Seq<Round<S>>,
    online: Seq<Round<S>>,
)
    requires
        graph(scheme, ops).well_formed(),
        realizes(offline, ops, schedule(graph(scheme, ops)).offline),
        realizes(online, ops, schedule(graph(scheme, ops)).online),
    ensures
        forall|k: int| 0 <= k < offline.len() ==> round_sorted(scheme, #[trigger] offline[k]),
        forall|k: int| 0 <= k < online.len() ==> round_sorted(scheme, #[trigger] online[k]),
        forall|k: int| 0 <= k < offline.len() ==> round_without_input(#[trigger] offline[k]),
{
    let g = graph(scheme, ops);
    let plan = schedule(g);
    law_partitioned(g);
    law_phases(g);
    law_each_operation_once(g);
    lemma_online_settled(g);
    lemma_flat_add(plan.offline, plan.online);
    let plans = plan.offline + plan.online;
    assert forall|c: int| #[trigger] flat(plans).contains(c) implies g.has(c) by {
        assert(plan.done.contains(c));
        assert(online_phase(g).knows(c));
    }
    assert forall|k: int| 0 <= k < offline.len() implies round_sorted(scheme, #[trigger] offline[k])
        && round_without_input(offline[k]) by {
        assert(plans[k] == plan.offline[k]);
        assert forall|j: int| 0 <= j < offline[k].local().len() implies scheme.local(
            #[trigger] offline[k].local()[j],
        ) && offline[k].local()[j].input_party() is None by {
            let c = plan.offline[k].local[j];
            assert(plan.offline[k].local.contains(c));
            lemma_flat_contains(plans, k, c);
            lemma_flat_contains(plan.offline, k, c);
            assert(!g.input_within(c, 0));
        }
        assert forall|j: int| 0 <= j < offline[k].network().len() implies !scheme.local(
            #[trigger] offline[k].network()[j],
        ) && offline[k].network()[j].input_party() is None by {
            let c = plan.offline[k].network[j];
            assert(plan.offline[k].network.contains(c));
            lemma_flat_contains(plans, k, c);
            lemma_flat_contains(plan.offline, k, c);
            assert(!g.input_within(c, 0));
        }
    }
    assert forall|k: int| 0 <= k < online.len() implies round_sorted(scheme, #[trigger] online[k]) by {
        assert(plans[plan.offline.len() + k] == plan.online[k]);
        assert forall|j: int| 0 <= j < online[k].local().len() implies scheme.local(
            #[trigger] online[k].local()[j],
        ) by {
            let c = plan.online[k].local[j];
            assert(plan.online[k].local.contains(c));
            lemma_flat_contains(plans, plan.offline.len() + k, c);
        }
        assert forall|j: int| 0 <= j < online[k].network().len() implies !scheme.local(
            #[trigger] online[k].network()[j],
        ) by {
            let c = plan.online[k].network[j];
            assert(plan.online[k].network.contains(c));
            lemma_flat_contains(plans, plan.offline.len() + k, c);
        }
    }
}

} // verus!

verus! {

/// The operations, each one in a slot of its own.
fn into_slots<O>(ops: Vec<O>) -> (slots: Vec<Option<O>>)
    ensures
        slots@ == Seq::new(ops@.len(), |i: int| Some(ops@[i])),
{
    let mut slots: Vec<Option<O>> = Vec::new();
    for op in iter: ops
        invariant
            slots@ == Seq::new(iter.index() as nat, |i: int| Some(iter.seq()[i])),
    {
        slots.push(Some(op));
    }
    slots
}

/// The operations that depend on nothing, in order.
fn find_sources(in_degree: &Vec<usize>, Ghost(g): Ghost<Graph>) -> (wave: VecDeque<usize>)
    requires
        in_degree@.len() == g.len(),
        forall|i: int|
            0 <= i < g.len() ==> #[trigger] in_degree@[i] == missing(g, i, Seq::empty()).len(),
    ensures
        ints(wave@) == sources(g),
{
    let mut wave: VecDeque<usize> = VecDeque::new();
    let ghost p = |c: int| g.deps[c].len() == 0;
    let mut idx: usize = 0;
    assert(ints(wave@) =~= select(p, 0));
    while idx < in_degree.len()
        invariant
            in_degree@.len() == g.len(),
            forall|i: int|
                0 <= i < g.len() ==> #[trigger] in_degree@[i] == missing(g, i, Seq::empty()).len(),
            p == (|c: int| g.deps[c].len() == 0),
            idx <= in_degree@.len(),
            ints(wave@) == select(p, idx as nat),
        decreases in_degree@.len() - idx,
    {
        proof {
            lemma_missing_none(g, idx as int, Seq::empty());
            if g.deps[idx as int].len() > 0 {
                let d = g.deps[idx as int][0];
                assert(g.deps[idx as int].contains(d));
                assert(g.depends(idx as int, d));
            }
            assert(in_degree@[idx as int] == 0 <==> p(idx as int));
        }
        if in_degree[idx] == 0 {
            let ghost before = wave@;
            wave.push_back(idx);
            assert(ints(before.push(idx)) =~= ints(before).push(idx as int));
        }
        idx = idx + 1;
    }
    wave
}

/// Whether an operation is left.
fn any_left<O>(slots: &Vec<Option<O>>) -> (b: bool)
    ensures
        b == exists|i: int| 0 <= i < slots@.len() && #[trigger] slots@[i] is Some,
{
    let mut i: usize = 0;
    while i < slots.len()
        invariant
            i <= slots@.len(),
            forall|j: int| 0 <= j < i ==> #[trigger] slots@[j] is None,
        decreases slots@.len() - i,
    {
        if slots[i].is_some() {
            return true;
        }
        i = i + 1;
    }
    false
}

impl<S: MpcScheme> MpcCircuit<S> {
    /// Constructs a new circuit.
    ///
    /// The operations are sorted topologically and batched into rounds. Those that depend on a
    /// user input form the online phase, the others the offline phase.
    pub fn new(operations: Vec<S::Operation>, scheme: S) -> (r: Result<Self, MpcCircuitError>)
        ensures
            match r {
                Err(MpcCircuitError::EmptyCircuit) => operations@.len() == 0,
                Err(MpcCircuitError::CircuitUnsound) => operations@.len() > 0 && !scheme.sound(
                    operations@,
                ),
                Err(MpcCircuitError::WireProducedManyTimes { wire }) => {
                    &&& operations@.len() > 0
                    &&& scheme.sound(operations@)
                    &&& is_first_repeated(all_outputs(operations@), wire)
                },
                Err(MpcCircuitError::WireConsumedButNotProduced { wire }) => {
                    &&& operations@.len() > 0
                    &&& scheme.sound(operations@)
                    &&& all_outputs(operations@).no_duplicates()
                    &&& is_first_missing(all_inputs(operations@), all_outputs(operations@), wire)
                },
                Err(MpcCircuitError::CircuitCyclic) => {
                    &&& operations@.len() > 0
                    &&& scheme.sound(operations@)
                    &&& wired(operations@)
                    &&& !graph(scheme, operations@).acyclic()
                },
                Ok(circuit) => compiled(operations@, scheme, circuit),
            },
    {
        let ghost ops = operations@;
        let ghost g = graph(scheme, ops);
        if operations.len() == 0 {
            return Err(MpcCircuitError::EmptyCircuit);
        }
        if !scheme.is_circuit_sound(operations.as_slice()) {
            return Err(MpcCircuitError::CircuitUnsound);
        }
        let producers = match find_producers(operations.as_slice()) {
            Ok(producers) => producers,
            Err(wire) => return Err(MpcCircuitError::WireProducedManyTimes { wire }),
        };
        let (consumers, in_degree) = match link(operations.as_slice(), &producers, Ghost(g)) {
            Ok(linked) => linked,
            Err(wire) => return Err(MpcCircuitError::WireConsumedButNotProduced { wire }),
        };
        proof {
            assert forall|c: int| g.has(c) && #[trigger] g.input[c] implies !g.local[c] by {
                scheme.input_is_not_local(ops[c]);
            }
            assert(g.well_formed());
            lemma_offline_settled(g);
            lemma_online_settled(g);
        }
        let wave = find_sources(&in_degree, Ghost(g));
        let mut sorter = Sorter { ops: into_slots(operations), consumers, in_degree };
        assert(sorter.tracks(g, ops, Seq::empty()));
        let (offline_rounds, held) = sort_phase(
            &scheme,
            &mut sorter,
            wave,
            true,
            Ghost(ops),
            Ghost(Seq::empty()),
        );
        let (online_rounds, _) = sort_phase(
            &scheme,
            &mut sorter,
            held,
            false,
            Ghost(ops),
            Ghost(offline_phase(g).done),
        );
        proof {
            law_complete_iff_acyclic(g);
            assert forall|c: int| g.has(c) implies (sorter.ops@[c] is None <==> #[trigger] schedule(
                g,
            ).done.contains(c)) by {}
        }
        if any_left(&sorter.ops) {
            return Err(MpcCircuitError::CircuitCyclic);
        }
        proof {
            lemma_schedule_runnable(scheme, ops, offline_rounds@, online_rounds@);
            lemma_schedule_sorted(scheme, ops, offline_rounds@, online_rounds@);
            assert forall|k: int| 0 <= k < offline_rounds@.len() implies starts_locally(
                scheme,
                #[trigger] offline_rounds@[k],
            ) by {
                assert(round_sorted(scheme, offline_rounds@[k]));
            }
            assert forall|k: int| 0 <= k < online_rounds@.len() implies starts_locally(
                scheme,
                #[trigger] online_rounds@[k],
            ) by {
                assert(round_sorted(scheme, online_rounds@[k]));
            }
            scheme.sound_is_usable(ops);
            law_rounds_bounded(g);
        }
        Ok(MpcCircuit { scheme, offline_rounds, online_rounds })
    }

    /// The circuit with the given rounds, whatever they are.
    pub fn from_rounds(scheme: S, offline: Vec<Round<S>>, online: Vec<Round<S>>) -> (circuit: Self)
        ensures
            circuit.spec_scheme() == scheme,
            circuit.offline() == offline@,
            circuit.online() == online@,
    {
        MpcCircuit { scheme, offline_rounds: offline, online_rounds: online }
    }

    /// Whether the rounds can run one after the other: each operation finds the wires that it
    /// consumes, none produces a wire again, and only local ones run without an exchange.
    pub fn can_run(&self) -> (b: bool)
        ensures
            b == arranged(self.spec_scheme(), self.offline(), self.online()),
    {
        is_arranged(&self.scheme, self.offline_rounds.as_slice(), self.online_rounds.as_slice())
    }
}

} // verus!

verus! {

/// The wires of the inputs that `party` provides among `ops`, in order.
pub open spec fn inputs_by<O: Operation>(ops: Seq<O>, party: usize) -> Seq<WireId>
    decreases ops.len(),
{
    if ops.len() == 0 {
        Seq::empty()
    } else if ops.last().input_party() == Some(party) {
        inputs_by(ops.drop_last(), party).push(ops.last().output_wires()[0])
    } else {
        inputs_by(ops.drop_last(), party)
    }
}

/// The wires of the inputs that `party` provides among the network operations of `rounds`.
pub open spec fn network_inputs_by<S: MpcScheme>(rounds: Seq<Round<S>>, party: usize) -> Seq<WireId>
    decreases rounds.len(),
{
    if rounds.len() == 0 {
        Seq::empty()
    } else {
        network_inputs_by(rounds.drop_last(), party) + inputs_by(rounds.last().network(), party)
    }
}

/// Appends the wires of the inputs that `party` provides among `ops`.
fn collect_inputs<O: Operation>(ops: &[O], party: usize, wires: &mut Vec<WireId>)
    ensures
        final(wires)@ == old(wires)@ + inputs_by(ops@, party),
{
    let ghost before = wires@;
    let mut j: usize = 0;
    assert(ops@.take(0) =~= Seq::empty());
    assert(before + inputs_by(ops@.take(0), party) =~= before);
    while j < ops.len()
        invariant
            j <= ops@.len(),
            wires@ == before + inputs_by(ops@.take(j as int), party),
        decreases ops@.len() - j,
    {
        let op = &ops[j];
        proof {
            assert(ops@.take(j + 1).drop_last() =~= ops@.take(j as int));
            assert(ops@.take(j + 1).last() == ops@[j as int]);
        }
        let mine = match op.get_input_party_id() {
            Some(id) => id == party,
            None => false,
        };
        if mine {
            proof {
                op.input_yields_one_output();
            }
            let outputs = op.outputs();
            wires.push(outputs[0]);
            assert(wires@ =~= before + inputs_by(ops@.take(j + 1), party));
        }
        j = j + 1;
    }
    assert(ops@.take(j as int) =~= ops@);
}

impl<S: MpcScheme> MpcCircuit<S> {
    /// Returns the wire identifiers of the input operations that the given party provides.
    pub fn get_input_operation_wire_ids_of_party(&self, party_id: usize) -> (wires: Vec<WireId>)
        ensures
            wires@ == network_inputs_by(self.online(), party_id),
    {
        let mut wires: Vec<WireId> = Vec::new();
        let ghost rounds = self.online_rounds@;
        let mut k: usize = 0;
        assert(rounds.take(0) =~= Seq::empty());
        while k < self.online_rounds.len()
            invariant
                rounds == self.online_rounds@,
                k <= rounds.len(),
                wires@ == network_inputs_by(rounds.take(k as int), party_id),
            decreases rounds.len() - k,
        {
            proof {
                assert(rounds.take(k + 1).drop_last() =~= rounds.take(k as int));
                assert(rounds.take(k + 1).last() == rounds[k as int]);
            }
            collect_inputs(self.online_rounds[k].network_operations(), party_id, &mut wires);
            k = k + 1;
        }
        assert(rounds.take(k as int) =~= rounds);
        wires
    }

    /// Returns a reference to the underlying scheme.
    pub fn scheme(&self) -> (scheme: &S)
        ensures
            *scheme == self.spec_scheme(),
    {
        &self.scheme
    }

    /// Returns a slice of the online rounds scheduled for this circuit.
    pub fn online_rounds(&self) -> (rounds: &[Round<S>])
        ensures
            rounds@ == self.online(),
    {
        self.online_rounds.as_slice()
    }

    /// Returns a slice of the offline rounds scheduled for this circuit.
    pub fn offline_rounds(&self) -> (rounds: &[Round<S>])
        ensures
            rounds@ == self.offline(),
    {
        self.offline_rounds.as_slice()
    }

    /// Returns the total number of rounds in both the offline and online phases.
    pub fn num_total_rounds(&self) -> (n: usize)
        requires
            self.offline().len() + self.online().len() <= usize::MAX,
        ensures
            n == self.offline().len() + self.online().len(),
    {
        self.offline_rounds.len() + self.online_rounds.len()
    }

    /// Returns the number of rounds of the offline phase.
    pub fn num_offline_rounds(&self) -> (n: usize)
        ensures
            n == self.offline().len(),
    {
        self.offline_rounds.len()
    }

    /// Returns the number of rounds of the online phase.
    pub fn num_online_rounds(&self) -> (n: usize)
        ensures
            n == self.online().len(),
    {
        self.online_rounds.len()
    }
}

} // verus!

verus! {

/// The outputs of two sequences of operations follow each other.
pub(crate) proof fn lemma_all_outputs_add<O: Operation>(a: Seq<O>, b: Seq<O>)
    ensures
        all_outputs(a + b) == all_outputs(a) + all_outputs(b),
    decreases b.len(),
{
    if b.len() == 0 {
        assert(a + b =~= a);
        assert(outputs_of(b) =~= Seq::empty());
        assert(all_outputs(a) + all_outputs(b) =~= all_outputs(a));
    } else {
        let rest = b.drop_last();
        lemma_all_outputs_add(a, rest);
        assert(outputs_of(a + b).drop_last() =~= outputs_of(a + rest));
        assert(outputs_of(b).drop_last() =~= outputs_of(rest));
        assert(all_outputs(a + b) =~= all_outputs(a) + all_outputs(b));
    }
}

} // verus!

verus! {

/// The graph of operations that find their wires is well-formed.
pub(crate) proof fn lemma_graph_well_formed<S: MpcScheme>(scheme: S, ops: Seq<S::Operation>)
    requires
        wired(ops),
    ensures
        graph(scheme, ops).well_formed(),
{
    let g = graph(scheme, ops);
    assert forall|c: int, d: int| #[trigger] g.depends(c, d) implies g.has(d) by {
        let j = g.deps[c].index_of(d);
        let w = ops[c].input_wires()[j];
        lemma_dependency(ops, c, w);
        assert(g.deps[c][j] == producer(ops, w));
    }
    assert forall|c: int| g.has(c) && #[trigger] g.input[c] implies !g.local[c] by {
        scheme.input_is_not_local(ops[c]);
    }
}

/// Whether `order` holds each number below `n`, and no other, once.
pub open spec fn holds_each_once(order: Seq<int>, n: nat) -> bool {
    &&& order.no_duplicates()
    &&& forall|c: int| #[trigger] order.contains(c) <==> 0 <= c < n
}

/// The rounds of a circuit run each of its operations once.
pub proof fn law_rounds_run_each_operation_once<S: MpcScheme>(
    operations: Seq<S::Operation>,
    scheme: S,
    circuit: MpcCircuit<S>,
)
    requires
        compiled(operations, scheme, circuit),
    ensures
        exists|order: Seq<int>| #[trigger]
            holds_each_once(order, operations.len()) && run_order(
                circuit.offline() + circuit.online(),
            ) == pick(operations, order),
{
    let g = graph(scheme, operations);
    let plan = schedule(g);
    let plans = plan.offline + plan.online;
    let rounds = circuit.offline() + circuit.online();
    lemma_graph_well_formed(scheme, operations);
    law_each_operation_once(g);
    law_complete_iff_acyclic(g);
    lemma_online_settled(g);
    lemma_flat_add(plan.offline, plan.online);
    assert forall|k: int| 0 <= k < rounds.len() implies (#[trigger] rounds[k]).local() == pick(
        operations,
        plans[k].local,
    ) && rounds[k].network() == pick(operations, plans[k].network) by {
        if k < circuit.offline().len() {
            assert(rounds[k] == circuit.offline()[k]);
        } else {
            assert(rounds[k] == circuit.online()[k - circuit.offline().len()]);
        }
    }
    lemma_realized_order(rounds, operations, plans);
    let order = flat(plans);
    assert forall|c: int| #[trigger] order.contains(c) <==> 0 <= c < operations.len() by {
        assert(plan.done.contains(c) <==> order.contains(c));
        if plan.done.contains(c) {
            assert(online_phase(g).knows(c));
        }
        if g.has(c) {
            assert(plan.done.contains(c));
        }
    }
    assert(holds_each_once(order, operations.len()));
}

/// The wires of the inputs of a party are the outputs of its input operations.
pub(crate) proof fn lemma_inputs_by<O: Operation>(ops: Seq<O>, party: usize)
    ensures
        forall|w: WireId| #[trigger]
            inputs_by(ops, party).contains(w) <==> exists|i: int|
                0 <= i < ops.len() && (#[trigger] ops[i]).input_party() == Some(party)
                    && ops[i].output_wires()[0] == w,
    decreases ops.len(),
{
    if ops.len() > 0 {
        let rest = ops.drop_last();
        let last = ops.len() - 1;
        lemma_inputs_by(rest, party);
        let wires = inputs_by(ops, party);
        let before = inputs_by(rest, party);
        assert forall|w: WireId| #[trigger] wires.contains(w) <==> exists|i: int|
            0 <= i < ops.len() && (#[trigger] ops[i]).input_party() == Some(party)
                && ops[i].output_wires()[0] == w by {
            if wires.contains(w) {
                let i = wires.index_of(w);
                if i < before.len() {
                    assert(before[i] == w);
                    assert(before.contains(w));
                    let j = choose|j: int|
                        0 <= j < rest.len() && (#[trigger] rest[j]).input_party() == Some(party)
                            && rest[j].output_wires()[0] == w;
                    assert(ops[j] == rest[j]);
                } else {
                    assert(ops[last].input_party() == Some(party));
                }
            }
            if exists|i: int|
                0 <= i < ops.len() && (#[trigger] ops[i]).input_party() == Some(party)
                    && ops[i].output_wires()[0] == w {
                let i = choose|i: int|
                    0 <= i < ops.len() && (#[trigger] ops[i]).input_party() == Some(party)
                        && ops[i].output_wires()[0] == w;
                if i < last {
                    assert(rest[i] == ops[i]);
                    assert(before.contains(w));
                    assert(wires[before.index_of(w)] == w);
                } else {
                    assert(wires[before.len() as int] == w);
                }
            }
        }
    }
}

/// Whether all of `some` are among `all`, each of them once.
spec fn among(some: Seq<WireId>, all: Seq<WireId>) -> bool {
    &&& some.no_duplicates()
    &&& forall|w: WireId| #[trigger] some.contains(w) ==> all.contains(w)
}

/// What is among two parts is among both.
proof fn lemma_among_add(a: Seq<WireId>, b: Seq<WireId>, x: Seq<WireId>, y: Seq<WireId>)
    requires
        (x + y).no_duplicates(),
        among(a, x),
        among(b, y),
    ensures
        among(a + b, x + y),
{
    let ab = a + b;
    let xy = x + y;
    assert forall|w: WireId| #[trigger] ab.contains(w) implies xy.contains(w) by {
        let i = ab.index_of(w);
        if i < a.len() {
            assert(a[i] == w);
            assert(a.contains(w));
            assert(xy[x.index_of(w)] == w);
        } else {
            assert(b[i - a.len()] == w);
            assert(b.contains(w));
            assert(xy[x.len() + y.index_of(w)] == w);
        }
    }
    assert forall|i: int, j: int| 0 <= i < ab.len() && 0 <= j < ab.len() && i != j implies ab[i]
        != ab[j] by {
        if i < a.len() && j >= a.len() {
            assert(a.contains(ab[i]) && b.contains(ab[j]));
            let p = x.index_of(ab[i]);
            let q = y.index_of(ab[j]);
            assert(xy[p] != xy[x.len() + q]);
        } else if j < a.len() && i >= a.len() {
            assert(a.contains(ab[j]) && b.contains(ab[i]));
            let p = x.index_of(ab[j]);
            let q = y.index_of(ab[i]);
            assert(xy[p] != xy[x.len() + q]);
        } else if i < a.len() {
            assert(a[i] != a[j]);
        } else {
            assert(b[i - a.len()] != b[j - a.len()]);
        }
    }
}

/// Parts of distinct wires are distinct.
proof fn lemma_parts_distinct(x: Seq<WireId>, y: Seq<WireId>)
    requires
        (x + y).no_duplicates(),
    ensures
        x.no_duplicates(),
        y.no_duplicates(),
{
    let xy = x + y;
    assert forall|i: int, j: int| 0 <= i < x.len() && 0 <= j < x.len() && i != j implies x[i]
        != x[j] by {
        assert(xy[i] != xy[j]);
    }
    assert forall|i: int, j: int| 0 <= i < y.len() && 0 <= j < y.len() && i != j implies y[i]
        != y[j] by {
        assert(xy[x.len() + i] != xy[x.len() + j]);
    }
}

/// The wires of the inputs of a party are among the outputs.
proof fn lemma_inputs_among<O: Operation>(ops: Seq<O>, party: usize)
    requires
        all_outputs(ops).no_duplicates(),
    ensures
        among(inputs_by(ops, party), all_outputs(ops)),
    decreases ops.len(),
{
    if ops.len() > 0 {
        let rest = ops.drop_last();
        let last = ops.last();
        let one = seq![last];
        assert(rest + one =~= ops);
        lemma_all_outputs_add(rest, one);
        lemma_parts_distinct(all_outputs(rest), all_outputs(one));
        lemma_inputs_among(rest, party);
        if last.input_party() == Some(party) {
            last.input_yields_one_output();
            let wire = last.output_wires()[0];
            assert(outputs_of(one)[0] == last.output_wires());
            lemma_join_index(outputs_of(one), 0, 0);
            assert(all_outputs(one).contains(wire));
            assert(seq![wire][0] == wire);
            assert(among(seq![wire], all_outputs(one)));
            lemma_among_add(inputs_by(rest, party), seq![wire], all_outputs(rest), all_outputs(one));
            assert(inputs_by(ops, party) =~= inputs_by(rest, party) + seq![wire]);
        } else {
            assert(among(Seq::<WireId>::empty(), all_outputs(one)));
            lemma_among_add(
                inputs_by(rest, party),
                Seq::empty(),
                all_outputs(rest),
                all_outputs(one),
            );
            assert(inputs_by(ops, party) =~= inputs_by(rest, party) + Seq::<WireId>::empty());
        }
    }
}

/// The wires of the inputs of a party are distinct.
proof fn lemma_network_inputs_among<S: MpcScheme>(rounds: Seq<Round<S>>, party: usize)
    requires
        all_outputs(run_order(rounds)).no_duplicates(),
    ensures
        among(network_inputs_by(rounds, party), all_outputs(run_order(rounds))),
    decreases rounds.len(),
{
    if rounds.len() > 0 {
        let rest = rounds.drop_last();
        let round = rounds.last();
        let before = run_order(rest) + round.local();
        let a = all_outputs(run_order(rest));
        let b = all_outputs(round.local());
        let c = all_outputs(round.network());
        lemma_all_outputs_add(run_order(rest), round.local());
        lemma_all_outputs_add(before, round.network());
        lemma_parts_distinct(a + b, c);
        lemma_parts_distinct(a, b);
        lemma_network_inputs_among(rest, party);
        lemma_inputs_among(round.network(), party);
        assert(among(Seq::<WireId>::empty(), b));
        lemma_among_add(network_inputs_by(rest, party), Seq::empty(), a, b);
        assert(network_inputs_by(rest, party) + Seq::<WireId>::empty() =~= network_inputs_by(
            rest,
            party,
        ));
        lemma_among_add(network_inputs_by(rest, party), inputs_by(round.network(), party), a + b, c);
    }
}

/// A party has an input wire where some round has it.
pub(crate) proof fn lemma_network_inputs_find<S: MpcScheme>(rounds: Seq<Round<S>>, party: usize, w: WireId)
    ensures
        network_inputs_by(rounds, party).contains(w) <==> exists|k: int|
            0 <= k < rounds.len() && inputs_by((#[trigger] rounds[k]).network(), party).contains(w),
    decreases rounds.len(),
{
    if rounds.len() > 0 {
        let rest = rounds.drop_last();
        let last = rounds.len() - 1;
        lemma_network_inputs_find(rest, party, w);
        let a = network_inputs_by(rest, party);
        let b = inputs_by(rounds[last].network(), party);
        if a.contains(w) {
            assert((a + b)[a.index_of(w)] == w);
            let k = choose|k: int|
                0 <= k < rest.len() && inputs_by((#[trigger] rest[k]).network(), party).contains(w);
            assert(rounds[k] == rest[k]);
        }
        if b.contains(w) {
            assert((a + b)[a.len() + b.index_of(w)] == w);
        }
        if (a + b).contains(w) {
            let i = (a + b).index_of(w);
            if i < a.len() {
                assert(a[i] == w);
            } else {
                assert(b[i - a.len()] == w);
            }
        }
        if exists|k: int|
            0 <= k < rounds.len() && inputs_by((#[trigger] rounds[k]).network(), party).contains(
                w,
            ) {
            let k = choose|k: int|
                0 <= k < rounds.len() && inputs_by(
                    (#[trigger] rounds[k]).network(),
                    party,
                ).contains(w);
            if k < last {
                assert(rest[k] == rounds[k]);
            }
        }
    }
}

/// The wires for which a party gives inputs are the outputs of its input operations, each once.
pub proof fn law_input_wires_of_party<S: MpcScheme>(
    operations: Seq<S::Operation>,
    scheme: S,
    circuit: MpcCircuit<S>,
    party: usize,
    wire: WireId,
)
    requires
        compiled(operations, scheme, circuit),
    ensures
        network_inputs_by(circuit.online(), party).no_duplicates(),
        network_inputs_by(circuit.online(), party).contains(wire) <==> exists|i: int|
            0 <= i < operations.len() && (#[trigger] operations[i]).input_party() == Some(party)
                && operations[i].output_wires()[0] == wire,
{
    let online = circuit.online();
    let offline = circuit.offline();
    let g = graph(scheme, operations);
    let plan = schedule(g);
    lemma_graph_well_formed(scheme, operations);
    law_each_operation_once(g);
    law_complete_iff_acyclic(g);
    law_phases(g);
    lemma_online_settled(g);
    lemma_schedule_runnable(scheme, operations, offline, online);
    lemma_run_order_add(offline, online);
    lemma_all_outputs_add(run_order(offline), run_order(online));
    lemma_parts_distinct(all_outputs(run_order(offline)), all_outputs(run_order(online)));
    lemma_network_inputs_among(online, party);
    lemma_network_inputs_find(online, party, wire);
    lemma_schedule_sorted(scheme, operations, offline, online);
    let wires = network_inputs_by(online, party);
    if wires.contains(wire) {
        let k = choose|k: int|
            0 <= k < online.len() && inputs_by((#[trigger] online[k]).network(), party).contains(
                wire,
            );
        lemma_inputs_by(online[k].network(), party);
        let network = online[k].network();
        let j = choose|j: int|
            0 <= j < network.len() && (#[trigger] network[j]).input_party() == Some(party)
                && network[j].output_wires()[0] == wire;
        let c = plan.online[k].network[j];
        assert(operations[c] == network[j]);
        assert(plan.online[k].network.contains(c));
        lemma_flat_contains(plan.online, k, c);
        lemma_known(g, c);
    }
    if exists|i: int|
        0 <= i < operations.len() && (#[trigger] operations[i]).input_party() == Some(party)
            && operations[i].output_wires()[0] == wire {
        let i = choose|i: int|
            0 <= i < operations.len() && (#[trigger] operations[i]).input_party() == Some(party)
                && operations[i].output_wires()[0] == wire;
        assert(g.input[i]);
        assert(g.input_within(i, 0));
        assert(g.has(i));
        assert(plan.done.contains(i));
        let both = flat(plan.offline) + flat(plan.online);
        assert(both.contains(i));
        let p = both.index_of(i);
        if p < flat(plan.offline).len() {
            assert(flat(plan.offline)[p] == i);
            assert(flat(plan.offline).contains(i));
        } else {
            assert(flat(plan.online)[p - flat(plan.offline).len()] == i);
        }
        assert(flat(plan.online).contains(i));
        let k = lemma_flat_find(plan.online, i);
        scheme.input_is_not_local(operations[i]);
        if plan.online[k].local.contains(i) {
            let j = plan.online[k].local.index_of(i);
            assert(online[k].local()[j] == operations[i]);
            assert(false);
        }
        let j = plan.online[k].network.index_of(i);
        let network = online[k].network();
        assert(network[j] == operations[i]);
        lemma_inputs_by(network, party);
        assert(inputs_by(network, party).contains(wire));
    }
}

/// What is scheduled is an operation.
proof fn lemma_known(g: Graph, c: int)
    requires
        g.well_formed(),
        flat(schedule(g).online).contains(c),
    ensures
        g.has(c),
{
    law_each_operation_once(g);
    lemma_online_settled(g);
    let both = flat(schedule(g).offline) + flat(schedule(g).online);
    let i = flat(schedule(g).online).index_of(c);
    assert(both[flat(schedule(g).offline).len() + i] == c);
    assert(schedule(g).done.contains(c));
    assert(online_phase(g).knows(c));
}

/// Rounds run one after the other.
pub(crate) proof fn lemma_run_order_add<S: MpcScheme>(a: Seq<Round<S>>, b: Seq<Round<S>>)
    ensures
        run_order(a + b) == run_order(a) + run_order(b),
    decreases b.len(),
{
    if b.len() == 0 {
        assert(a + b =~= a);
        assert(run_order(a) + run_order(b) =~= run_order(a));
    } else {
        lemma_run_order_add(a, b.drop_last());
        assert((a + b).drop_last() =~= a + b.drop_last());
        assert(run_order(a + b) =~= run_order(a) + run_order(b));
    }
}

/// What is scheduled is in one of the rounds.
proof fn lemma_flat_find(plans: Seq<RoundPlan>, c: int) -> (k: int)
    requires
        flat(plans).contains(c),
    ensures
        0 <= k < plans.len(),
        plans[k].local.contains(c) || plans[k].network.contains(c),
    decreases plans.len(),
{
    let rest = plans.drop_last();
    let last = plans.last();
    let i = flat(plans).index_of(c);
    if i < flat(rest).len() {
        assert(flat(rest)[i] == c);
        let k = lemma_flat_find(rest, c);
        assert(plans[k] == rest[k]);
        k
    } else {
        if i < flat(rest).len() + last.local.len() {
            assert(last.local[i - flat(rest).len()] == c);
        } else {
            assert(last.network[i - flat(rest).len() - last.local.len()] == c);
        }
        plans.len() - 1
    }
}

/// Whether both have the same operations in each round.
pub open spec fn same_rounds<S: MpcScheme>(a: Seq<Round<S>>, b: Seq<Round<S>>) -> bool {
    &&& a.len() == b.len()
    &&& forall|r: int|
        0 <= r < a.len() ==> (#[trigger] a[r]).local() == b[r].local() && a[r].network()
            == b[r].network()
}

/// Parties that compile the same operations get the same rounds.
pub proof fn law_same_operations_same_rounds<S: MpcScheme>(
    operations: Seq<S::Operation>,
    scheme: S,
    a: MpcCircuit<S>,
    b: MpcCircuit<S>,
)
    requires
        compiled(operations, scheme, a),
        compiled(operations, scheme, b),
    ensures
        same_rounds(a.offline(), b.offline()),
        same_rounds(a.online(), b.online()),
        same_rounds(a.offline() + a.online(), b.offline() + b.online()),
{
    let x = a.offline() + a.online();
    let y = b.offline() + b.online();
    let n = a.offline().len() as int;
    assert(same_rounds(a.offline(), b.offline()));
    assert(same_rounds(a.online(), b.online()));
    assert forall|r: int| 0 <= r < x.len() implies (#[trigger] x[r]).local() == y[r].local()
        && x[r].network() == y[r].network() by {
        if r < n {
            assert(x[r] == a.offline()[r]);
        } else {
            assert(x[r] == a.online()[r - n]);
        }
    }
}

} // verus!
