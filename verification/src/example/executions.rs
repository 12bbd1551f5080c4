//! The executions of all parties of an additive circuit, which exchange what they send.

use std::convert::Infallible;

use vstd::prelude::*;

use crate::example::additive::{
    additive_phase, from_others, input_of, lemma_others, to_others, with_inputs,
    AdditiveContext, AdditiveOperation, AdditiveScheme,
};
use crate::example::joint::{carried, joint, law_parties_compute_the_circuit, suits, Run, Turn};
use crate::example::wire_types::{output_of, WireType};
use crate::mpc::circuit::{
    all_outputs, lemma_inputs_by, lemma_network_inputs_find, network_inputs_by, outputs_of,
    round_ready, round_without_input, run_order, runnable, same_rounds, starts_locally, Round,
    WireId,
};
use crate::mpc::error::ExecutionContextError;
use crate::mpc::execution::{
    all_rounds, collides, continues, given, lemma_well_formed, wires_after, ExecutionContext, Step,
};
use crate::mpc::history::{
    kept, law_execution_fills_all_wires, law_phase_leads_on, law_rounds_are_played,
    lemma_fresh_local, lemma_fresh_network, lemma_local_run_domain, lemma_run_order_at, part_data,
    part_receives, part_sends, round_at, round_plays, share, stands_at, Part, Story,
};
use crate::mpc::phases::{
    finalize_stop, gather, ids, local_outcome, local_run, local_stop, network_start, PendingRound,
};
use crate::mpc::scheme::{answers, MpcScheme, NetworkPhaseOutput, Operation};
use crate::networking::network::{
    lemma_received_from_add, lemma_received_from_none, lemma_received_from_one,
    lemma_sent_to_add, lemma_sent_to_none, lemma_sent_to_one, others, received_from, sent_to,
    ReceiveRequest, SendRequest,
};
use crate::seqs::{contents, join, lemma_join_take};

verus! {

/// Whether the context is that of the party `id` among `n`, and still has the inputs `given` for
/// the operations from `q` on.
pub open spec fn remembers(
    id: int,
    n: int,
    given: Map<usize, u64>,
    ops: Seq<AdditiveOperation>,
    context: AdditiveContext,
    q: int,
) -> bool {
    &&& context.id() == id
    &&& context.parties() == n
    &&& forall|j: int|
        q <= j < ops.len() ==> input_of(context.given(), output_of(#[trigger] ops[j])) == input_of(
            given,
            output_of(ops[j]),
        )
}

/// What the context of a party keeps over the operations.
pub open spec fn memory(
    id: int,
    n: int,
    given: Map<usize, u64>,
    ops: Seq<AdditiveOperation>,
) -> spec_fn(AdditiveContext, int) -> bool {
    |context: AdditiveContext, q: int| remembers(id, n, given, ops, context, q)
}

/// Whether no two operations produce the same wire.
pub open spec fn distinct(ops: Seq<AdditiveOperation>) -> bool {
    forall|i: int, j: int|
        0 <= i < ops.len() && 0 <= j < ops.len() && i != j ==> output_of(#[trigger] ops[i])
            != output_of(#[trigger] ops[j])
}

/// The operations keep what a context remembers.
proof fn lemma_kept<const M: u64>(
    scheme: AdditiveScheme<M>,
    id: int,
    n: int,
    given: Map<usize, u64>,
    ops: Seq<AdditiveOperation>,
)
    requires
        distinct(ops),
    ensures
        kept(scheme, ops, memory(id, n, given, ops)),
{
    let holds = memory(id, n, given, ops);
    assert forall|
        q: int,
        before: AdditiveContext,
        inputs: Seq<u64>,
        after: AdditiveContext,
        output: NetworkPhaseOutput<AdditiveScheme<M>>,
    |
        0 <= q < ops.len() && holds(before, q) && #[trigger] scheme.network_phase(
            before,
            ops[q],
            inputs,
            after,
            Ok(output),
        ) implies holds(after, q + 1) by {
        let op = ops[q];
        assert forall|j: int| q + 1 <= j < ops.len() implies input_of(
            after.given(),
            output_of(#[trigger] ops[j]),
        ) == input_of(given, output_of(ops[j])) by {
            assert(output_of(ops[j]) != output_of(ops[q]));
            assert(output_of(ops[j]).0 != output_of(ops[q]).0);
            assert(input_of(before.given(), output_of(ops[j])) == input_of(
                given,
                output_of(ops[j]),
            ));
        }
    }
}

/// The outputs of additive operations, one for each.
pub(crate) proof fn lemma_single_outputs(ops: Seq<AdditiveOperation>)
    ensures
        all_outputs(ops) == Seq::new(ops.len(), |i: int| output_of(ops[i])),
    decreases ops.len(),
{
    let single = Seq::new(ops.len(), |i: int| output_of(ops[i]));
    if ops.len() == 0 {
        assert(outputs_of(ops) =~= Seq::empty());
        assert(all_outputs(ops) =~= single);
    } else {
        let rest = ops.drop_last();
        lemma_single_outputs(rest);
        assert(outputs_of(ops).drop_last() =~= outputs_of(rest));
        assert(ops.last().output_wires() =~= seq![output_of(ops.last())]);
        assert(all_outputs(ops) =~= single);
    }
}

/// A wire that some of the operations produce is the output of one of them.
proof fn lemma_producer(ops: Seq<AdditiveOperation>, w: WireId) -> (j: int)
    requires
        all_outputs(ops).contains(w),
    ensures
        0 <= j < ops.len(),
        output_of(ops[j]) == w,
{
    lemma_single_outputs(ops);
    all_outputs(ops).index_of(w)
}

/// Whether one of the operations before `k` produces the wire `w`.
pub open spec fn found(ops: Seq<AdditiveOperation>, k: int, w: WireId) -> bool {
    exists|j: int| 0 <= j < k && output_of(#[trigger] ops[j]) == w
}

/// Whether each operation consumes only what operations before it produce.
pub open spec fn ordered(ops: Seq<AdditiveOperation>) -> bool {
    forall|k: int, w: WireId|
        0 <= k < ops.len() && #[trigger] ops[k].input_wires().contains(w) ==> found(ops, k, w)
}

/// What operations before `k` produce is found.
proof fn lemma_found(
    ops: Seq<AdditiveOperation>,
    some: Seq<AdditiveOperation>,
    at: int,
    k: int,
    w: WireId,
)
    requires
        stands_at(some, ops, at),
        at + some.len() <= k,
        all_outputs(some).contains(w),
    ensures
        found(ops, k, w),
{
    let j = lemma_producer(some, w);
    assert(some[j] == ops[at + j]);
}

/// A round that can run next is in order.
proof fn lemma_ordered_next<const M: u64>(
    first: Seq<AdditiveOperation>,
    round: Round<AdditiveScheme<M>>,
    k: int,
    w: WireId,
)
    requires
        ordered(first),
        round_ready(all_outputs(first), round),
        0 <= k < (first + round.local() + round.network()).len(),
        (first + round.local() + round.network())[k].input_wires().contains(w),
    ensures
        found(first + round.local() + round.network(), k, w),
{
    let local = round.local();
    let network = round.network();
    let ops = first + local + network;
    let a = first.len() as int;
    let b = local.len() as int;
    if k < a {
        assert(first[k] == ops[k]);
        assert(found(first, k, w));
        let j = choose|j: int| 0 <= j < k && output_of(#[trigger] first[j]) == w;
        assert(ops[j] == first[j]);
    } else if k < a + b {
        assert(ops[k] == local[k - a]);
        if all_outputs(first).contains(w) {
            lemma_found(ops, first, 0, k, w);
        } else {
            lemma_found(ops, local.take(k - a), a, k, w);
        }
    } else {
        assert(ops[k] == network[k - a - b]);
        if all_outputs(first).contains(w) {
            lemma_found(ops, first, 0, k, w);
        } else {
            lemma_found(ops, local, a, k, w);
        }
    }
}

/// Rounds that can run one after the other are in order.
proof fn lemma_ordered<const M: u64>(rounds: Seq<Round<AdditiveScheme<M>>>, n: int)
    requires
        runnable(rounds),
        0 <= n <= rounds.len(),
    ensures
        ordered(run_order(rounds.take(n))),
    decreases n,
{
    let ops = run_order(rounds.take(n));
    if n > 0 {
        lemma_ordered(rounds, n - 1);
        assert(rounds.take(n).drop_last() =~= rounds.take(n - 1));
        assert(round_ready(all_outputs(run_order(rounds.take(n - 1))), rounds[n - 1]));
        assert forall|k: int, w: WireId|
            0 <= k < ops.len() && #[trigger] ops[k].input_wires().contains(w) implies found(
            ops,
            k,
            w,
        ) by {
            lemma_ordered_next(run_order(rounds.take(n - 1)), rounds[n - 1], k, w);
        }
    }
}

} // verus!

verus! {

/// Rounds with the same operations run in the same order.
proof fn lemma_same_order<S: MpcScheme>(a: Seq<Round<S>>, b: Seq<Round<S>>)
    requires
        same_rounds(a, b),
    ensures
        run_order(a) == run_order(b),
    decreases a.len(),
{
    if a.len() > 0 {
        assert forall|r: int| 0 <= r < a.len() - 1 implies (#[trigger] a.drop_last()[r]).local()
            == b.drop_last()[r].local() && a.drop_last()[r].network()
            == b.drop_last()[r].network() by {
            assert(a.drop_last()[r] == a[r]);
        }
        lemma_same_order(a.drop_last(), b.drop_last());
        assert(a[a.len() - 1].local() == b[a.len() - 1].local());
    }
}

/// Whether the executions are those of all parties, on the same plan.
pub open spec fn together<const M: u64>(stories: Seq<Story<AdditiveScheme<M>>>) -> bool {
    &&& 0 < stories.len()
    &&& forall|p: int| 0 <= p < stories.len() ==> #[trigger] takes_part(stories, p)
}

/// Whether the execution `p` is that of the party `p` of all, on the same plan as the first one,
/// which has its inputs in the online phase.
pub open spec fn takes_part<const M: u64>(stories: Seq<Story<AdditiveScheme<M>>>, p: int) -> bool {
    let story = stories[p];
    &&& story.valid()
    &&& story.config().id() == p
    &&& story.config().parties() == stories.len()
    &&& same_rounds(story.rounds(), stories[0].rounds())
    &&& story.config().spec_circuit().offline().len()
        == stories[0].config().spec_circuit().offline().len()
    &&& forall|k: int|
        0 <= k < story.config().spec_circuit().offline().len() ==> round_without_input(
            #[trigger] story.config().spec_circuit().offline()[k],
        )
}

/// Whether the network brings in the round `r` to each party what the others send to it.
pub open spec fn delivers<const M: u64>(stories: Seq<Story<AdditiveScheme<M>>>, r: int) -> bool {
    forall|f: int, i: int|
        0 <= f < stories.len() && 0 <= i < stories.len() && f != i ==> sent_to(
            (#[trigger] stories[f]).exchange(r).send@,
            i,
        ) == received_from(
            (#[trigger] stories[i]).exchange(r).receive@,
            contents(stories[i].data(r)),
            f,
        )
}

/// The operations in the order in which all parties run them.
pub open spec fn program<const M: u64>(stories: Seq<Story<AdditiveScheme<M>>>) -> Seq<
    AdditiveOperation,
> {
    run_order(stories[0].rounds())
}

/// The inputs that the party has when the phase of the round `r` starts.
pub open spec fn given_at<const M: u64>(story: Story<AdditiveScheme<M>>, r: int) -> Map<
    usize,
    u64,
> {
    if r < story.offline.exchanges.len() {
        story.offline.before.context().unwrap().given()
    } else {
        story.online.before.context().unwrap().given()
    }
}

/// Whether the parts are those of the party `p` in the round `r`.
pub open spec fn is_played<const M: u64>(
    stories: Seq<Story<AdditiveScheme<M>>>,
    p: int,
    r: int,
    parts: (Seq<Part<AdditiveScheme<M>>>, Seq<Part<AdditiveScheme<M>>>),
) -> bool {
    let story = stories[p];
    round_plays(
        story.config().spec_circuit().spec_scheme(),
        story.rounds()[r],
        story.wires(),
        memory(p, stories.len() as int, given_at(story, r), program(stories)),
        round_at(story.config(), r),
        story.exchange(r),
        story.data(r),
        parts,
    )
}

/// How the party `p` takes part in the operations of the round `r`.
pub open spec fn parts_of<const M: u64>(
    stories: Seq<Story<AdditiveScheme<M>>>,
    p: int,
    r: int,
) -> (Seq<Part<AdditiveScheme<M>>>, Seq<Part<AdditiveScheme<M>>>) {
    choose|parts: (Seq<Part<AdditiveScheme<M>>>, Seq<Part<AdditiveScheme<M>>>)|
        is_played(stories, p, r, parts)
}

/// The program of all parties produces each wire once.
proof fn lemma_program<const M: u64>(stories: Seq<Story<AdditiveScheme<M>>>)
    requires
        together(stories),
    ensures
        M != 0,
        distinct(program(stories)),
        ordered(program(stories)),
        forall|p: int|
            0 <= p < stories.len() ==> run_order((#[trigger] stories[p]).rounds()) == program(
                stories,
            ),
{
    let first = stories[0];
    let ops = program(stories);
    assert(takes_part(stories, 0));
    lemma_well_formed(first.offline.before);
    lemma_single_outputs(ops);
    assert(all_outputs(ops).no_duplicates());
    assert forall|i: int, j: int|
        0 <= i < ops.len() && 0 <= j < ops.len() && i != j implies output_of(#[trigger] ops[i])
        != output_of(#[trigger] ops[j]) by {
        assert(all_outputs(ops)[i] != all_outputs(ops)[j]);
    }
    lemma_ordered(first.rounds(), first.rounds().len() as int);
    assert(first.rounds().take(first.rounds().len() as int) =~= first.rounds());
    assert forall|p: int| 0 <= p < stories.len() implies run_order((#[trigger] stories[p]).rounds())
        == ops by {
        assert(takes_part(stories, p));
        lemma_same_order(stories[p].rounds(), first.rounds());
    }
}

/// The context that the handshake of an execution has established is that of the party, and of the
/// number of parties, of its configuration.
pub proof fn law_handshake_establishes_the_own_context<const M: u64>(
    execution: ExecutionContext<AdditiveScheme<M>>,
    result: Result<AdditiveContext, Infallible>,
)
    requires
        execution.establishes(result),
    ensures
        result is Ok,
        result.unwrap().id() == execution.spec_config().id(),
        result.unwrap().parties() == execution.spec_config().parties(),
        result.unwrap().given() == Map::<usize, u64>::empty(),
{
}

/// The parties take part in each round.
proof fn lemma_parts<const M: u64>(stories: Seq<Story<AdditiveScheme<M>>>, p: int, r: int)
    requires
        together(stories),
        0 <= p < stories.len(),
        0 <= r < stories[0].rounds().len(),
    ensures
        is_played(stories, p, r, parts_of(stories, p, r)),
{
    lemma_program(stories);
    assert(takes_part(stories, p));
    let story = stories[p];
    let n = stories.len() as int;
    let ops = program(stories);
    let scheme = story.config().spec_circuit().spec_scheme();
    law_execution_fills_all_wires(story);
    law_handshake_establishes_the_own_context(
        story.offline.before,
        Ok(story.offline.before.context().unwrap()),
    );
    assert(run_order(stories[p].rounds()) == ops);
    let first = memory(p, n, story.offline.before.context().unwrap().given(), ops);
    lemma_kept(scheme, p, n, story.offline.before.context().unwrap().given(), ops);
    lemma_kept(scheme, p, n, story.online.before.context().unwrap().given(), ops);
    law_phase_leads_on(story.offline, first);
    let second = memory(p, n, story.online.before.context().unwrap().given(), ops);
    let k = story.offline.exchanges.len() as int;
    law_phase_leads_on(story.online, second);
    let parts = if r < k {
        law_rounds_are_played(story.offline, r, first, story.wires())
    } else {
        law_rounds_are_played(story.online, r - k, second, story.wires())
    };
    assert(is_played(stories, p, r, parts));
}

} // verus!

verus! {

/// What `f` sends to `i` for an operation is as long as what `i` gets from `f` for it.
proof fn lemma_same_length<const M: u64>(
    op: AdditiveOperation,
    n: int,
    f: int,
    i: int,
    a: Part<AdditiveScheme<M>>,
    b: Part<AdditiveScheme<M>>,
)
    requires
        0 <= f < n,
        0 <= i < n,
        f != i,
        playing(op, n, f, a),
        playing(op, n, i, b),
    ensures
        sent_to(a.output.send_request@, i).len() == received_from(
            b.output.receive_request@,
            b.data,
            f,
        ).len(),
{
    let sent = a.output.send_request@;
    let awaited = b.output.receive_request@;
    lemma_others(n as nat, f);
    lemma_others(n as nat, i);
    match op {
        AdditiveOperation::Input { party_id, output } => {
            if party_id == f {
                lemma_sent_each(sent, n, f, i);
                assert(awaited[0].admits(b.data[0].len()));
                lemma_received_from_one(awaited, b.data, 0);
            } else {
                lemma_sent_to_none(sent, i);
                lemma_received_from_none(awaited, b.data, f);
            }
        },
        AdditiveOperation::Reveal { .. } => {
            lemma_sent_each(sent, n, f, i);
            let k = if f < i {
                f
            } else {
                f - 1
            };
            lemma_received_each(awaited, b.data, n, i, k);
            assert(awaited[k].from == others(n as nat, i)[k]);
            assert(awaited[k].admits(b.data[k].len()));
        },
        _ => {
            lemma_sent_to_none(sent, i);
            lemma_received_from_none(awaited, b.data, f);
        },
    }
}

/// Whether this may be the part of the party `p` among `n` in `op`.
pub open spec fn playing<const M: u64>(
    op: AdditiveOperation,
    n: int,
    p: int,
    part: Part<AdditiveScheme<M>>,
) -> bool {
    &&& part.before.id() == p
    &&& part.before.parties() == n
    &&& additive_phase(
        part.before,
        op,
        part.inputs,
        M,
        part.after,
        part.output.pending,
        part.output.send_request@,
        part.output.receive_request@,
    )
    &&& answers(part.output.receive_request@, part.data)
}

/// A party that sends to all others sends one value to each.
proof fn lemma_sent_each(sent: Seq<SendRequest<'static, u64>>, n: int, f: int, i: int)
    requires
        0 <= f < n,
        0 <= i < n,
        f != i,
        to_others(sent, n as nat, f),
    ensures
        sent_to(sent, i).len() == 1,
{
    lemma_others(n as nat, f);
    let k = if i < f {
        i
    } else {
        i - 1
    };
    assert(sent[k].to == others(n as nat, f)[k]);
    assert forall|j: int| 0 <= j < sent.len() && j != k implies (#[trigger] sent[j]).to
        != sent[k].to by {
        assert(sent[j].to == others(n as nat, f)[j]);
    }
    lemma_sent_to_one(sent, k);
}

/// A party that awaits a value from each other party gets from each what its request gets.
proof fn lemma_received_each(
    awaited: Seq<ReceiveRequest<u64>>,
    data: Seq<Seq<u64>>,
    n: int,
    i: int,
    k: int,
)
    requires
        0 <= i < n,
        from_others(awaited, n as nat, i),
        data.len() == awaited.len(),
        0 <= k < awaited.len(),
    ensures
        received_from(awaited, data, awaited[k].from as int) == data[k],
{
    lemma_others(n as nat, i);
    assert(awaited[k].from == others(n as nat, i)[k]);
    assert forall|j: int| 0 <= j < awaited.len() && j != k implies (#[trigger] awaited[j]).from
        != awaited[k].from by {
        assert(awaited[j].from == others(n as nat, i)[j]);
    }
    lemma_received_from_one(awaited, data, k);
}

/// The requests and the data of the first operations are as many.
proof fn lemma_data_len<const M: u64>(parts: Seq<Part<AdditiveScheme<M>>>, j: int)
    requires
        0 <= j <= parts.len(),
        forall|k: int|
            0 <= k < parts.len() ==> answers(
                (#[trigger] parts[k]).output.receive_request@,
                parts[k].data,
            ),
    ensures
        join(part_receives(parts).take(j)).len() == join(part_data(parts).take(j)).len(),
    decreases j,
{
    if j == 0 {
        assert(part_receives(parts).take(0) =~= Seq::empty());
        assert(part_data(parts).take(0) =~= Seq::empty());
    } else {
        lemma_data_len(parts, j - 1);
        lemma_join_take(part_receives(parts), j - 1);
        lemma_join_take(part_data(parts), j - 1);
        assert(answers(parts[j - 1].output.receive_request@, parts[j - 1].data));
    }
}

/// Where the network brings to `i` what `f` sends to it over all operations of a round, it does so
/// for each of them.
proof fn lemma_aligned<const M: u64>(
    ops: Seq<AdditiveOperation>,
    n: int,
    f: int,
    i: int,
    a: Seq<Part<AdditiveScheme<M>>>,
    b: Seq<Part<AdditiveScheme<M>>>,
    j: int,
)
    requires
        0 <= f < n,
        0 <= i < n,
        f != i,
        a.len() == ops.len(),
        b.len() == ops.len(),
        forall|k: int| 0 <= k < ops.len() ==> playing(ops[k], n, f, #[trigger] a[k]),
        forall|k: int| 0 <= k < ops.len() ==> playing(ops[k], n, i, #[trigger] b[k]),
        sent_to(join(part_sends(a)), i) == received_from(
            join(part_receives(b)),
            join(part_data(b)),
            f,
        ),
        0 <= j <= ops.len(),
    ensures
        sent_to(join(part_sends(a).take(j)), i) == received_from(
            join(part_receives(b).take(j)),
            join(part_data(b).take(j)),
            f,
        ),
        j < ops.len() ==> sent_to(a[j].output.send_request@, i) == received_from(
            b[j].output.receive_request@,
            b[j].data,
            f,
        ),
    decreases ops.len() - j,
{
    if j == ops.len() {
        assert(part_sends(a).take(j) =~= part_sends(a));
        assert(part_receives(b).take(j) =~= part_receives(b));
        assert(part_data(b).take(j) =~= part_data(b));
    } else {
        lemma_aligned(ops, n, f, i, a, b, j + 1);
        assert(playing(ops[j], n, f, a[j]));
        assert(playing(ops[j], n, i, b[j]));
        lemma_same_length(ops[j], n, f, i, a[j], b[j]);
        lemma_join_take(part_sends(a), j);
        lemma_join_take(part_receives(b), j);
        lemma_join_take(part_data(b), j);
        assert forall|k: int| 0 <= k < b.len() implies answers(
            (#[trigger] b[k]).output.receive_request@,
            b[k].data,
        ) by {
            assert(playing(ops[k], n, i, b[k]));
        }
        lemma_data_len(b, j);
        let sent = join(part_sends(a).take(j));
        let awaited = join(part_receives(b).take(j));
        let data = join(part_data(b).take(j));
        lemma_sent_to_add(sent, a[j].output.send_request@, i);
        lemma_received_from_add(
            (awaited, data),
            (b[j].output.receive_request@, b[j].data),
            f,
        );
        lemma_same_tail(
            sent_to(sent, i),
            sent_to(a[j].output.send_request@, i),
            received_from(awaited, data, f),
            received_from(b[j].output.receive_request@, b[j].data, f),
        );
    }
}

/// Over the first operations of a round `f` sends to `i` as much as `i` gets from `f`.
proof fn lemma_same_total<const M: u64>(
    ops: Seq<AdditiveOperation>,
    n: int,
    f: int,
    i: int,
    a: Seq<Part<AdditiveScheme<M>>>,
    b: Seq<Part<AdditiveScheme<M>>>,
    j: int,
)
    requires
        0 <= f < n,
        0 <= i < n,
        f != i,
        a.len() == ops.len(),
        b.len() == ops.len(),
        forall|k: int| 0 <= k < ops.len() ==> playing(ops[k], n, f, #[trigger] a[k]),
        forall|k: int| 0 <= k < ops.len() ==> playing(ops[k], n, i, #[trigger] b[k]),
        0 <= j <= ops.len(),
    ensures
        sent_to(join(part_sends(a).take(j)), i).len() == received_from(
            join(part_receives(b).take(j)),
            join(part_data(b).take(j)),
            f,
        ).len(),
    decreases j,
{
    if j == 0 {
        assert(part_sends(a).take(0) =~= Seq::empty());
        assert(part_receives(b).take(0) =~= Seq::empty());
    } else {
        let k = j - 1;
        lemma_same_total(ops, n, f, i, a, b, k);
        assert(playing(ops[k], n, f, a[k]));
        assert(playing(ops[k], n, i, b[k]));
        lemma_same_length(ops[k], n, f, i, a[k], b[k]);
        lemma_join_take(part_sends(a), k);
        lemma_join_take(part_receives(b), k);
        lemma_join_take(part_data(b), k);
        assert forall|l: int| 0 <= l < b.len() implies answers(
            (#[trigger] b[l]).output.receive_request@,
            b[l].data,
        ) by {
            assert(playing(ops[l], n, i, b[l]));
        }
        lemma_data_len(b, k);
        lemma_sent_to_add(join(part_sends(a).take(k)), a[k].output.send_request@, i);
        lemma_received_from_add(
            (join(part_receives(b).take(k)), join(part_data(b).take(k))),
            (b[k].output.receive_request@, b[k].data),
            f,
        );
    }
}

/// Equal sequences with tails of the same length have the same tails.
proof fn lemma_same_tail(a: Seq<u64>, x: Seq<u64>, b: Seq<u64>, y: Seq<u64>)
    requires
        a + x == b + y,
        x.len() == y.len(),
    ensures
        a == b,
        x == y,
{
    assert((a + x).len() == (b + y).len());
    assert((a + x).take(a.len() as int) =~= a);
    assert((b + y).take(b.len() as int) =~= b);
    assert((a + x).skip(a.len() as int) =~= x);
    assert((b + y).skip(b.len() as int) =~= y);
}

/// Lists of one element each, one after the other, are their elements.
proof fn lemma_join_singles(lists: Seq<Seq<u64>>)
    requires
        forall|k: int| 0 <= k < lists.len() ==> (#[trigger] lists[k]).len() == 1,
    ensures
        join(lists) == Seq::new(lists.len(), |k: int| lists[k][0]),
    decreases lists.len(),
{
    if lists.len() > 0 {
        lemma_join_singles(lists.drop_last());
        assert(lists[lists.len() - 1].len() == 1);
    }
    assert(join(lists) =~= Seq::new(lists.len(), |k: int| lists[k][0]));
}

} // verus!

verus! {

/// The turn of a party that takes part in an operation.
pub open spec fn turn_of<const M: u64>(part: Part<AdditiveScheme<M>>) -> Turn {
    Turn {
        before: part.before,
        after: part.after,
        inputs: part.inputs,
        pending: part.output.pending,
        sent: part.output.send_request@,
        awaited: part.output.receive_request@,
        data: join(part.data),
    }
}

/// Whether the turns are how the parties run `op` together that end up with `wires`.
pub open spec fn runs_with(
    op: AdditiveOperation,
    turns: Seq<Turn>,
    wires: Seq<Map<usize, u64>>,
    modulus: u64,
) -> bool {
    &&& turns.len() == wires.len()
    &&& joint(op, turns, modulus)
    &&& forall|p: int|
        0 <= p < wires.len() ==> (#[trigger] turns[p]).inputs == gather(wires[p], op.input_wires())
            && turns[p].value(modulus) == wires[p][output_of(op).0]
}

/// Whether what the parties get for an operation is what they send to each other.
pub open spec fn exchanged<const M: u64>(parts: Seq<Part<AdditiveScheme<M>>>) -> bool {
    forall|f: int, i: int|
        0 <= f < parts.len() && 0 <= i < parts.len() && f != i ==> sent_to(
            (#[trigger] parts[f]).output.send_request@,
            i,
        ) == received_from((#[trigger] parts[i]).output.receive_request@, parts[i].data, f)
}

/// Each request of an operation gets one value.
proof fn lemma_one_each<const M: u64>(
    op: AdditiveOperation,
    n: int,
    p: int,
    part: Part<AdditiveScheme<M>>,
)
    requires
        0 <= p < n,
        playing(op, n, p, part),
    ensures
        join(part.data) == Seq::new(part.data.len(), |k: int| part.data[k][0]),
        forall|k: int| 0 <= k < part.data.len() ==> (#[trigger] part.data[k]).len() == 1,
{
    let awaited = part.output.receive_request@;
    assert forall|k: int| 0 <= k < part.data.len() implies (#[trigger] part.data[k]).len() == 1 by {
        assert(awaited[k].count == Some(1usize));
        assert(awaited[k].admits(part.data[k].len()));
    }
    lemma_join_singles(part.data);
}

/// What a party gets for a request was sent to it by the party that it asked.
proof fn lemma_carried<const M: u64>(
    op: AdditiveOperation,
    parts: Seq<Part<AdditiveScheme<M>>>,
    i: int,
    k: int,
)
    requires
        forall|p: int|
            0 <= p < parts.len() ==> playing(op, parts.len() as int, p, #[trigger] parts[p]),
        exchanged(parts),
        0 <= i < parts.len(),
        0 <= k < parts[i].output.receive_request@.len(),
        parts[i].output.receive_request@[k].from < parts.len(),
    ensures
        carried(Seq::new(parts.len(), |p: int| turn_of(parts[p])), i, k),
{
    let n = parts.len() as int;
    let turns = Seq::new(parts.len(), |p: int| turn_of(parts[p]));
    let part = parts[i];
    let awaited = part.output.receive_request@;
    let f = awaited[k].from as int;
    assert(playing(op, n, i, part));
    lemma_one_each(op, n, i, part);
    lemma_others(n as nat, i);
    match op {
        AdditiveOperation::Reveal { .. } => {
            assert(awaited[k].from == others(n as nat, i)[k]);
            lemma_received_each(awaited, part.data, n, i, k);
        },
        _ => {
            lemma_received_from_one(awaited, part.data, k);
        },
    }
    let sent = parts[f].output.send_request@;
    assert(f != i);
    assert(sent_to(sent, i) == received_from(awaited, part.data, f));
    assert(sent_to(sent, i) == part.data[k]);
    assert(playing(op, n, f, parts[f]));
    if forall|m: int| 0 <= m < sent.len() ==> (#[trigger] sent[m]).to != i {
        lemma_sent_to_none(sent, i);
    }
    let m = choose|m: int| 0 <= m < sent.len() && (#[trigger] sent[m]).to == i;
    lemma_others(n as nat, f);
    assert forall|l: int| 0 <= l < sent.len() && l != m implies (#[trigger] sent[l]).to
        != sent[m].to by {
        assert(sent[l].to == others(n as nat, f)[l]);
        assert(sent[m].to == others(n as nat, f)[m]);
    }
    lemma_sent_to_one(sent, m);
    assert(part.data[k][0] == sent[m].payload());
    assert(turns[f].sent[m].to == i);
}

/// Parties that take part in an operation and exchange what they send run it together.
proof fn lemma_runs<const M: u64>(
    schemes: Seq<AdditiveScheme<M>>,
    op: AdditiveOperation,
    parts: Seq<Part<AdditiveScheme<M>>>,
    wires: Seq<Map<usize, u64>>,
)
    requires
        parts.len() == wires.len(),
        parts.len() == schemes.len(),
        forall|p: int|
            0 <= p < parts.len() ==> (#[trigger] parts[p]).plays(schemes[p], op, wires[p])
                && parts[p].before.id() == p && parts[p].before.parties() == parts.len(),
        exchanged(parts),
    ensures
        runs_with(op, Seq::new(parts.len(), |p: int| turn_of(parts[p])), wires, M),
{
    let n = parts.len() as int;
    let turns = Seq::new(parts.len(), |p: int| turn_of(parts[p]));
    assert forall|p: int| 0 <= p < n implies playing(op, n, p, #[trigger] parts[p]) by {
        assert(parts[p].plays(schemes[p], op, wires[p]));
    }
    assert forall|p: int| 0 <= p < n implies (#[trigger] turns[p]).plays(op, p, n, M) by {
        assert(parts[p].plays(schemes[p], op, wires[p]));
        lemma_one_each(op, n, p, parts[p]);
    }
    assert forall|i: int, k: int|
        0 <= i < turns.len() && 0 <= k < turns[i].awaited.len() && 0 <= turns[i].awaited[k].from
            < turns.len() implies #[trigger] carried(turns, i, k) by {
        lemma_carried(op, parts, i, k);
    }
    assert forall|p: int| 0 <= p < n implies (#[trigger] turns[p]).inputs == gather(
        wires[p],
        op.input_wires(),
    ) && turns[p].value(M) == wires[p][output_of(op).0] by {
        assert(parts[p].plays(schemes[p], op, wires[p]));
        assert(op.output_wires()[0] == output_of(op));
        assert(gather(wires[p], op.output_wires())[0] == wires[p][output_of(op).0]);
    }
}

} // verus!

verus! {

/// The part in the operation `j` of a round with `locals` local operations.
pub open spec fn part_at<const M: u64>(
    parts: (Seq<Part<AdditiveScheme<M>>>, Seq<Part<AdditiveScheme<M>>>),
    locals: int,
    j: int,
) -> Part<AdditiveScheme<M>> {
    if j < locals {
        parts.0[j]
    } else {
        parts.1[j - locals]
    }
}

/// The operations of the round `r`, in the order in which they run.
pub open spec fn round_ops<const M: u64>(stories: Seq<Story<AdditiveScheme<M>>>, r: int) -> Seq<
    AdditiveOperation,
> {
    stories[0].rounds()[r].local() + stories[0].rounds()[r].network()
}

/// The parts of all parties in the operation `j` of the round `r`.
pub open spec fn parts_in<const M: u64>(
    stories: Seq<Story<AdditiveScheme<M>>>,
    r: int,
    j: int,
) -> Seq<Part<AdditiveScheme<M>>> {
    let locals = stories[0].rounds()[r].local().len() as int;
    Seq::new(stories.len(), |p: int| part_at(parts_of(stories, p, r), locals, j))
}

/// The turns of all parties in the operations of the round `r`.
pub open spec fn round_turns<const M: u64>(stories: Seq<Story<AdditiveScheme<M>>>, r: int) -> Seq<
    Seq<Turn>,
> {
    Seq::new(
        round_ops(stories, r).len(),
        |j: int|
            Seq::new(stories.len(), |p: int| turn_of(parts_in(stories, r, j)[p])),
    )
}

/// The turns of all parties in the operations of the first `r` rounds.
pub open spec fn turns_until<const M: u64>(stories: Seq<Story<AdditiveScheme<M>>>, r: int) -> Seq<
    Seq<Turn>,
>
    decreases r,
{
    if r <= 0 {
        Seq::empty()
    } else {
        turns_until(stories, r - 1) + round_turns(stories, r - 1)
    }
}

/// The values of the wires of each party in the end.
pub open spec fn wires_of<const M: u64>(stories: Seq<Story<AdditiveScheme<M>>>) -> Seq<
    Map<usize, u64>,
> {
    Seq::new(stories.len(), |p: int| stories[p].wires())
}

/// How all parties run the circuit in their executions.
pub open spec fn run_of<const M: u64>(stories: Seq<Story<AdditiveScheme<M>>>) -> Run {
    Run {
        ops: program(stories),
        turns: turns_until(stories, stories[0].rounds().len() as int),
        wires: wires_of(stories),
        modulus: M,
    }
}

/// Whether the party that shares an input in `op` shares what it has for it when the online phase
/// starts, and had to give an input for it.
pub open spec fn faithful<const M: u64>(
    stories: Seq<Story<AdditiveScheme<M>>>,
    op: AdditiveOperation,
    turns: Seq<Turn>,
) -> bool {
    match op {
        AdditiveOperation::Input { party_id, output } => party_id < stories.len() ==> {
            let story = stories[party_id as int];
            &&& input_of(turns[party_id as int].before.given(), output) == input_of(
                story.online.before.context().unwrap().given(),
                output,
            )
            &&& network_inputs_by(story.config().spec_circuit().online(), party_id).contains(output)
        },
        _ => true,
    }
}

/// How a party takes part in an operation of a round.
proof fn lemma_part_at<const M: u64>(
    stories: Seq<Story<AdditiveScheme<M>>>,
    r: int,
    j: int,
    p: int,
)
    requires
        together(stories),
        0 <= r < stories[0].rounds().len(),
        0 <= j < round_ops(stories, r).len(),
        0 <= p < stories.len(),
    ensures
        ({
            let story = stories[p];
            let part = parts_in(stories, r, j)[p];
            let op = round_ops(stories, r)[j];
            &&& part.plays(story.config().spec_circuit().spec_scheme(), op, story.wires())
            &&& playing(op, stories.len() as int, p, part)
            &&& input_of(part.before.given(), output_of(op)) == input_of(
                given_at(story, r),
                output_of(op),
            )
        }),
{
    lemma_parts(stories, p, r);
    lemma_program(stories);
    assert(takes_part(stories, p));
    let story = stories[p];
    let parts = parts_of(stories, p, r);
    let round = story.rounds()[r];
    let at = round_at(story.config(), r);
    let locals = round.local().len() as int;
    let ops = program(stories);
    assert(round.local() == stories[0].rounds()[r].local());
    assert(round.network() == stories[0].rounds()[r].network());
    lemma_run_order_at(story.rounds(), r);
    assert(run_order(stories[p].rounds()) == ops);
    let part = parts_in(stories, r, j)[p];
    let op = round_ops(stories, r)[j];
    if j < locals {
        assert(part == parts.0[j]);
        assert(round.local()[j] == ops[at + j]);
        assert(ops[at + j] == op);
    } else {
        assert(part == parts.1[j - locals]);
        assert(round.network()[j - locals] == ops[at + locals + (j - locals)]);
        assert(ops[at + locals + (j - locals)] == op);
    }
}

/// The network operations of a round are played by each party.
proof fn lemma_network_playing<const M: u64>(
    stories: Seq<Story<AdditiveScheme<M>>>,
    r: int,
    p: int,
)
    requires
        together(stories),
        0 <= r < stories[0].rounds().len(),
        0 <= p < stories.len(),
    ensures
        ({
            let network = stories[0].rounds()[r].network();
            let parts = parts_of(stories, p, r).1;
            &&& parts.len() == network.len()
            &&& share(parts, stories[p].exchange(r), stories[p].data(r))
            &&& forall|k: int|
                0 <= k < network.len() ==> playing(
                    network[k],
                    stories.len() as int,
                    p,
                    #[trigger] parts[k],
                )
        }),
{
    let network = stories[0].rounds()[r].network();
    let locals = stories[0].rounds()[r].local().len() as int;
    let parts = parts_of(stories, p, r).1;
    lemma_parts(stories, p, r);
    assert(takes_part(stories, p));
    assert(stories[p].rounds()[r].network() == network);
    assert forall|k: int| 0 <= k < network.len() implies playing(
        network[k],
        stories.len() as int,
        p,
        #[trigger] parts[k],
    ) by {
        lemma_part_at(stories, r, locals + k, p);
        assert(parts_in(stories, r, locals + k)[p] == parts[k]);
    }
}

/// In each round a party gets from another one as many values as this one sends to it.
pub proof fn law_parties_get_as_much_as_is_sent<const M: u64>(
    stories: Seq<Story<AdditiveScheme<M>>>,
    r: int,
    f: int,
    i: int,
)
    requires
        together(stories),
        0 <= r < stories[0].rounds().len(),
        0 <= f < stories.len(),
        0 <= i < stories.len(),
        f != i,
    ensures
        sent_to(stories[f].exchange(r).send@, i).len() == received_from(
            stories[i].exchange(r).receive@,
            contents(stories[i].data(r)),
            f,
        ).len(),
{
    let network = stories[0].rounds()[r].network();
    let a = parts_of(stories, f, r).1;
    let b = parts_of(stories, i, r).1;
    let m = network.len() as int;
    lemma_network_playing(stories, r, f);
    lemma_network_playing(stories, r, i);
    lemma_same_total(network, stories.len() as int, f, i, a, b, m);
    assert(part_sends(a).take(m) =~= part_sends(a));
    assert(part_receives(b).take(m) =~= part_receives(b));
    assert(part_data(b).take(m) =~= part_data(b));
}

/// The parties exchange what they send for each operation of a round.
proof fn lemma_exchanged<const M: u64>(stories: Seq<Story<AdditiveScheme<M>>>, r: int, j: int)
    requires
        together(stories),
        0 <= r < stories[0].rounds().len(),
        delivers(stories, r),
        0 <= j < round_ops(stories, r).len(),
    ensures
        exchanged(parts_in(stories, r, j)),
{
    let n = stories.len() as int;
    let parts = parts_in(stories, r, j);
    let locals = stories[0].rounds()[r].local().len() as int;
    let network = stories[0].rounds()[r].network();
    assert forall|f: int, i: int|
        0 <= f < parts.len() && 0 <= i < parts.len() && f != i implies sent_to(
        (#[trigger] parts[f]).output.send_request@,
        i,
    ) == received_from((#[trigger] parts[i]).output.receive_request@, parts[i].data, f) by {
        let a = parts_of(stories, f, r).1;
        let b = parts_of(stories, i, r).1;
        if j < locals {
            lemma_part_at(stories, r, j, f);
            lemma_part_at(stories, r, j, i);
            lemma_sorted(stories, r);
            assert(round_ops(stories, r)[j] == stories[0].rounds()[r].local()[j]);
            lemma_sent_to_none(parts[f].output.send_request@, i);
            lemma_received_from_none(parts[i].output.receive_request@, parts[i].data, f);
            assert(sent_to(parts[f].output.send_request@, i) =~= received_from(
                parts[i].output.receive_request@,
                parts[i].data,
                f,
            ));
        } else {
            lemma_network_playing(stories, r, f);
            lemma_network_playing(stories, r, i);
            assert(sent_to(stories[f].exchange(r).send@, i) == received_from(
                stories[i].exchange(r).receive@,
                contents(stories[i].data(r)),
                f,
            ));
            lemma_aligned(network, n, f, i, a, b, j - locals);
        }
    }
}

/// The local operations of a round are sums and random values.
proof fn lemma_sorted<const M: u64>(stories: Seq<Story<AdditiveScheme<M>>>, r: int)
    requires
        together(stories),
        0 <= r < stories[0].rounds().len(),
    ensures
        forall|j: int|
            0 <= j < stories[0].rounds()[r].local().len() ==> {
                let op = #[trigger] stories[0].rounds()[r].local()[j];
                op is Add || op is GenRandom
            },
        r < stories[0].config().spec_circuit().offline().len() ==> round_without_input(
            stories[0].rounds()[r],
        ),
{
    assert(takes_part(stories, 0));
    lemma_well_formed(stories[0].offline.before);
    let circuit = stories[0].config().spec_circuit();
    let n = circuit.offline().len() as int;
    if r < n {
        assert(stories[0].rounds()[r] == circuit.offline()[r]);
    } else {
        assert(stories[0].rounds()[r] == circuit.online()[r - n]);
    }
    assert(starts_locally(circuit.spec_scheme(), stories[0].rounds()[r]));
}

/// The parties run each operation of a round together.
proof fn lemma_round_runs<const M: u64>(stories: Seq<Story<AdditiveScheme<M>>>, r: int, j: int)
    requires
        together(stories),
        0 <= r < stories[0].rounds().len(),
        delivers(stories, r),
        0 <= j < round_ops(stories, r).len(),
    ensures
        runs_with(round_ops(stories, r)[j], round_turns(stories, r)[j], wires_of(stories), M),
        faithful(stories, round_ops(stories, r)[j], round_turns(stories, r)[j]),
{
    let op = round_ops(stories, r)[j];
    let parts = parts_in(stories, r, j);
    let turns = round_turns(stories, r)[j];
    let schemes = Seq::new(
        stories.len(),
        |p: int| stories[p].config().spec_circuit().spec_scheme(),
    );
    assert forall|p: int| 0 <= p < parts.len() implies (#[trigger] parts[p]).plays(
        schemes[p],
        op,
        wires_of(stories)[p],
    ) && parts[p].before.id() == p && parts[p].before.parties() == parts.len() by {
        lemma_part_at(stories, r, j, p);
    }
    lemma_exchanged(stories, r, j);
    lemma_runs(schemes, op, parts, wires_of(stories));
    assert(turns =~= Seq::new(parts.len(), |p: int| turn_of(parts[p])));
    if let AdditiveOperation::Input { party_id, output } = op {
        if party_id < stories.len() {
            let p = party_id as int;
            lemma_part_at(stories, r, j, p);
            assert(takes_part(stories, p));
            assert(takes_part(stories, 0));
            law_execution_fills_all_wires(stories[p]);
            lemma_sorted(stories, r);
            let round = stories[0].rounds()[r];
            let locals = round.local().len() as int;
            let n = stories[p].offline.exchanges.len() as int;
            if j < locals {
                assert(op == round.local()[j]);
            } else {
                assert(op == round.network()[j - locals]);
                if r < n {
                    assert(round.network()[j - locals].input_party() is None);
                }
            }
            let online = stories[p].config().spec_circuit().online();
            assert(stories[p].rounds()[r] == online[r - n]);
            assert(online[r - n].network() == round.network());
            lemma_inputs_by(online[r - n].network(), party_id);
            assert(online[r - n].network()[j - locals] == op);
            lemma_network_inputs_find(online, party_id, output);
        }
    }
}

/// The parties run the operations of the first rounds together.
proof fn lemma_runs_until<const M: u64>(stories: Seq<Story<AdditiveScheme<M>>>, r: int)
    requires
        together(stories),
        0 <= r <= stories[0].rounds().len(),
        forall|k: int| 0 <= k < stories[0].rounds().len() ==> #[trigger] delivers(stories, k),
    ensures
        ({
            let ops = run_order(stories[0].rounds().take(r));
            let turns = turns_until(stories, r);
            &&& turns.len() == ops.len()
            &&& forall|q: int|
                0 <= q < ops.len() ==> runs_with(ops[q], #[trigger] turns[q], wires_of(stories), M)
                    && faithful(stories, ops[q], turns[q])
        }),
    decreases r,
{
    let rounds = stories[0].rounds();
    let ops = run_order(rounds.take(r));
    let turns = turns_until(stories, r);
    if r > 0 {
        lemma_runs_until(stories, r - 1);
        assert(rounds.take(r).drop_last() =~= rounds.take(r - 1));
        let first = run_order(rounds.take(r - 1));
        assert(ops =~= first + round_ops(stories, r - 1));
        assert(delivers(stories, r - 1));
        assert forall|q: int| 0 <= q < ops.len() implies runs_with(
            ops[q],
            #[trigger] turns[q],
            wires_of(stories),
            M,
        ) && faithful(stories, ops[q], turns[q]) by {
            if q < first.len() {
                assert(turns[q] == turns_until(stories, r - 1)[q]);
            } else {
                lemma_round_runs(stories, r - 1, q - first.len());
            }
        }
    }
}

/// The executions of all parties, each run to its end over a network that brings what is sent,
/// form a run of the circuit: the values of the wires that the parties end up with are those that
/// the parties compute together, operation by operation.
pub proof fn law_executions_form_a_run<const M: u64>(
    stories: Seq<Story<AdditiveScheme<M>>>,
    types: Map<usize, WireType>,
)
    requires
        together(stories),
        forall|r: int| 0 <= r < stories[0].rounds().len() ==> #[trigger] delivers(stories, r),
        forall|k: int|
            0 <= k < program(stories).len() ==> suits(
                #[trigger] program(stories)[k],
                stories.len() as int,
                types,
            ),
    ensures
        run_of(stories).valid(types),
{
    let run = run_of(stories);
    let rounds = stories[0].rounds();
    lemma_program(stories);
    assert(takes_part(stories, 0));
    lemma_runs_until(stories, rounds.len() as int);
    assert(rounds.take(rounds.len() as int) =~= rounds);
    assert forall|k: int| 0 <= k < run.ops.len() implies #[trigger] run.runs(k) && run.in_order(k)
        && run.fits(types, k) by {
        assert(runs_with(run.ops[k], run.turns[k], run.wires, M));
        assert(suits(program(stories)[k], stories.len() as int, types));
        assert forall|w: WireId| #[trigger] run.ops[k].input_wires().contains(w) implies exists|
            j: int,
        |
            0 <= j < k && output_of(#[trigger] run.ops[j]) == w by {
            assert(found(run.ops, k, w));
        }
        assert forall|p: int| 0 <= p < run.wires.len() implies #[trigger] run.column(
            output_of(run.ops[k]),
        )[p] == run.turns[k][p].value(M) by {
            assert(run.turns[k][p].value(M) == run.wires[p][output_of(run.ops[k]).0]);
        }
    }
}

/// After the executions of all parties the shares of each shared wire add up to its meaning, and
/// every party has the meaning of each public wire.
pub proof fn law_executions_compute_the_circuit<const M: u64>(
    stories: Seq<Story<AdditiveScheme<M>>>,
    types: Map<usize, WireType>,
    k: int,
)
    requires
        together(stories),
        forall|r: int| 0 <= r < stories[0].rounds().len() ==> #[trigger] delivers(stories, r),
        forall|k: int|
            0 <= k < program(stories).len() ==> suits(
                #[trigger] program(stories)[k],
                stories.len() as int,
                types,
            ),
        0 <= k < program(stories).len(),
    ensures
        run_of(stories).stands_for(
            types,
            output_of(program(stories)[k]),
            run_of(stories).meaning(program(stories).len() as int)[output_of(
                program(stories)[k],
            ).0],
        ),
{
    law_executions_form_a_run(stories, types);
    law_parties_compute_the_circuit(run_of(stories), types, k);
}

/// The inputs that the user gives, each for another wire, are there, reduced.
proof fn lemma_with_inputs(
    before: Map<usize, u64>,
    inputs: Seq<(WireId, u64)>,
    modulus: u64,
    i: int,
)
    requires
        modulus > 0,
        given(inputs).no_duplicates(),
        0 <= i < inputs.len(),
    ensures
        input_of(with_inputs(before, inputs, modulus), inputs[i].0) == inputs[i].1 as int
            % modulus as int,
    decreases inputs.len(),
{
    let rest = inputs.drop_last();
    if i < inputs.len() - 1 {
        assert forall|a: int, b: int| 0 <= a < b < rest.len() implies given(rest)[a]
            != given(rest)[b] by {
            assert(given(inputs)[a] != given(inputs)[b]);
        }
        lemma_with_inputs(before, rest, modulus, i);
        assert(given(inputs)[i] != given(inputs)[inputs.len() - 1]);
        assert(inputs[i].0.0 != inputs.last().0.0);
    }
}

/// Later operations do not change what the output of an operation means.
proof fn lemma_meaning_stays(run: Run, k: int, n: int)
    requires
        distinct(run.ops),
        0 <= k < n <= run.ops.len(),
    ensures
        run.meaning(n)[output_of(run.ops[k]).0] == run.meaning(k + 1)[output_of(run.ops[k]).0],
    decreases n,
{
    if k < n - 1 {
        lemma_meaning_stays(run, k, n - 1);
        assert(output_of(run.ops[k]) != output_of(run.ops[n - 1]));
        assert(output_of(run.ops[k]).0 != output_of(run.ops[n - 1]).0);
    }
}

/// What an input means is what its party has handed in for it.
pub proof fn law_inputs_mean_what_was_given<const M: u64>(
    stories: Seq<Story<AdditiveScheme<M>>>,
    k: int,
    party: usize,
    output: WireId,
)
    requires
        together(stories),
        forall|r: int| 0 <= r < stories[0].rounds().len() ==> #[trigger] delivers(stories, r),
        0 <= k < program(stories).len(),
        program(stories)[k] == (AdditiveOperation::Input { party_id: party, output }),
        party < stories.len(),
    ensures
        exists|i: int|
            0 <= i < stories[party as int].inputs.len() && (
            #[trigger] stories[party as int].inputs[i]).0 == output && run_of(stories).meaning(
                program(stories).len() as int,
            )[output.0] == stories[party as int].inputs[i].1 as int % M as int,
{
    let run = run_of(stories);
    let rounds = stories[0].rounds();
    let p = party as int;
    let story = stories[p];
    lemma_program(stories);
    assert(takes_part(stories, p));
    lemma_runs_until(stories, rounds.len() as int);
    assert(rounds.take(rounds.len() as int) =~= rounds);
    assert(run.turns[k] == turns_until(stories, rounds.len() as int)[k]);
    assert(faithful(stories, run.ops[k], run.turns[k]));
    let own = network_inputs_by(story.config().spec_circuit().online(), party);
    let wires = given(story.inputs);
    assert(own.contains(output));
    assert(output == WireId(output.0));
    assert(ids(own).contains(output.0));
    assert(ids(wires).contains(output.0));
    let i = wires.index_of(output);
    assert(story.inputs[i].0 == output);
    assert(wires.take(wires.len() as int) =~= wires);
    lemma_with_inputs(
        story.offline.last().context().unwrap().given(),
        story.inputs,
        M,
        i,
    );
    lemma_meaning_stays(run, k, run.ops.len() as int);
    vstd::arithmetic::div_mod::lemma_mod_twice(story.inputs[i].1 as int, M as int);
}

/// An additive execution in which exactly the wires of the rounds that are done have values does not
/// fail once the network brings what was asked for: it continues, and what it waits for is
/// finalized and stored.
pub proof fn law_additive_execution_goes_on<const M: u64>(
    before: ExecutionContext<AdditiveScheme<M>>,
    k: int,
    tally: (int, int),
    after: ExecutionContext<AdditiveScheme<M>>,
    result: Result<Step<AdditiveScheme<M>>, ExecutionContextError>,
)
    requires
        before.spec_config().well_formed(),
        0 <= k,
        before.base() + k <= before.end(),
        before.wires().dom() == wires_after(before.spec_config(), before.base() + k),
        continues(before, k, tally, after, result),
    ensures
        result is Ok,
        forall|
            round: PendingRound<AdditiveScheme<M>>,
            data: Seq<Vec<u64>>,
            first: AdditiveContext,
            last: AdditiveContext,
            error: ExecutionContextError,
        |
            !(#[trigger] finalize_stop(after.spec_scheme(), round, data, first, last, error)),
        result matches Ok(Step::Exchange(_)) ==> forall|
            data: Seq<Vec<u64>>,
            last: ExecutionContext<AdditiveScheme<M>>,
        |
            !(#[trigger] collides(after, data, last)),
{
    let config = before.spec_config();
    let at = before.base() + k;
    if at < before.end() {
        let scheme = before.spec_scheme();
        let round = all_rounds(config)[at];
        let from = (before.context().unwrap(), before.wires());
        let to = (after.context().unwrap(), after.wires());
        match result {
            Ok(Step::Exchange(exchange)) => {
                let pending = after.waiting().unwrap().1;
                let context = choose|context: AdditiveContext| #[trigger]
                    local_run(scheme, round.local(), from, (context, to.1)) && network_start(
                        scheme,
                        round.network(),
                        to.1,
                        context,
                        to.0,
                        pending,
                        exchange,
                    );
                lemma_local_run_domain(scheme, round.local(), from, (context, to.1));
                lemma_fresh_network(config, at, to.1);
            },
            Ok(_) => {},
            Err(error) => {
                if local_outcome(scheme, round.local(), from, to, Err(error)) {
                    let (j, context) = choose|j: int, context: AdditiveContext| #[trigger]
                        local_stop(scheme, round.local(), j, context, from, to, error);
                    assert(local_stop(scheme, round.local(), j, context, from, to, error));
                    lemma_fresh_local(config, at, from, (context, to.1), j);
                }
            },
        }
    }
}

} // verus!
