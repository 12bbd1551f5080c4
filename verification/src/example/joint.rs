//! What all parties of an additive circuit compute together.
//!
//! The parties take part in an operation by its network phase, an exchange, and its finalize
//! phase. Together their values stand for one value: shared wires by their sum, public wires by the
//! value that every party has.

use vstd::prelude::*;

use crate::example::additive::{
    additive_phase, additive_value, input_of, law_addition_is_homomorphic, law_input_is_shared,
    law_reveal_opens_the_sum, law_values_stay_reduced, lemma_others, reduced, shared_input, sum,
    AdditiveContext, AdditiveOperation, AdditivePending,
};
use crate::example::wire_types::{output_of, type_of, WireType};
use crate::mpc::circuit::WireId;
use crate::mpc::phases::gather;
use crate::mpc::scheme::Operation;
use crate::networking::network::{others, ReceiveRequest, SendRequest};

verus! {

/// How one party takes part in an operation.
pub struct Turn {
    /// The context before the network phase.
    pub before: AdditiveContext,
    /// The context after it.
    pub after: AdditiveContext,
    /// The values of the wires that the operation consumes.
    pub inputs: Seq<u64>,
    /// What is left for the finalize phase.
    pub pending: AdditivePending,
    /// What is sent.
    pub sent: Seq<SendRequest<'static, u64>>,
    /// What is awaited.
    pub awaited: Seq<ReceiveRequest<u64>>,
    /// What has arrived, one value for each request.
    pub data: Seq<u64>,
}

impl Turn {
    /// The value that the party ends up with.
    pub open spec fn value(self, modulus: u64) -> int {
        additive_value(self.pending, self.data, modulus)
    }

    /// Whether this is how the party `me` among `n` may take part in `op`.
    pub open spec fn plays(self, op: AdditiveOperation, me: int, n: int, modulus: u64) -> bool {
        &&& self.before.id() == me
        &&& self.before.parties() == n
        &&& self.inputs.len() == op.input_wires().len()
        &&& additive_phase(
            self.before,
            op,
            self.inputs,
            modulus,
            self.after,
            self.pending,
            self.sent,
            self.awaited,
        )
        &&& self.data.len() == self.awaited.len()
    }
}

/// Whether what has arrived at `to` for its request `k` is what the requested party sent to it.
pub open spec fn carried(turns: Seq<Turn>, to: int, k: int) -> bool {
    let from = turns[to].awaited[k].from as int;
    exists|m: int|
        0 <= m < turns[from].sent.len() && (#[trigger] turns[from].sent[m]).to == to
            && turns[from].sent[m].payload() == turns[to].data[k]
}

/// Whether all parties take part in `op`, over a network that carries what they send.
pub open spec fn joint(op: AdditiveOperation, turns: Seq<Turn>, modulus: u64) -> bool {
    &&& forall|i: int|
        0 <= i < turns.len() ==> (#[trigger] turns[i]).plays(op, i, turns.len() as int, modulus)
    &&& forall|i: int, k: int|
        0 <= i < turns.len() && 0 <= k < turns[i].awaited.len() && 0 <= turns[i].awaited[k].from
            < turns.len() ==> #[trigger] carried(turns, i, k)
}

/// Whether `values` are the values that the parties end up with.
pub open spec fn ends_with(turns: Seq<Turn>, values: Seq<u64>, modulus: u64) -> bool {
    &&& values.len() == turns.len()
    &&& forall|i: int| 0 <= i < turns.len() ==> #[trigger] values[i] == turns[i].value(modulus)
}

/// The values that the parties have for the input `j` of an operation.
pub open spec fn operand(turns: Seq<Turn>, j: int) -> Seq<u64> {
    Seq::new(turns.len(), |i: int| turns[i].inputs[j])
}

/// The parties to which a party sends are all different.
proof fn lemma_sent_once(turn: Turn, n: nat, me: int, a: int, b: int)
    requires
        0 <= me,
        turn.sent.len() == others(n, me).len(),
        forall|i: int|
            0 <= i < turn.sent.len() ==> (#[trigger] turn.sent[i]).to == others(n, me)[i],
        0 <= a < turn.sent.len(),
        0 <= b < turn.sent.len(),
        turn.sent[a].to == turn.sent[b].to,
    ensures
        a == b,
{
    lemma_others(n, me);
    assert(turn.sent[a].to == others(n, me)[a]);
    assert(turn.sent[b].to == others(n, me)[b]);
}

/// After an input operation the values of all parties add up to the input.
pub proof fn law_joint_input(
    party: usize,
    output: WireId,
    turns: Seq<Turn>,
    values: Seq<u64>,
    modulus: u64,
)
    requires
        modulus > 0,
        party < turns.len(),
        turns.len() <= usize::MAX,
        joint(AdditiveOperation::Input { party_id: party, output }, turns, modulus),
        ends_with(turns, values, modulus),
    ensures
        sum(values) % modulus as int == input_of(turns[party as int].before.given(), output) as int
            % modulus as int,
{
    let op = AdditiveOperation::Input { party_id: party, output };
    let n = turns.len();
    let p = party as int;
    let mine = turns[p];
    assert(mine.plays(op, p, n as int, modulus));
    let shares = choose|shares: Seq<u64>|
        reduced(shares, modulus) && #[trigger] shared_input(
            mine.before,
            output,
            shares,
            modulus,
            mine.after,
            mine.pending,
            mine.sent,
        );
    lemma_others(n, p);
    assert forall|k: int| 0 <= k < mine.sent.len() implies values[(
    #[trigger] mine.sent[k]).to as int] == additive_value(
        AdditivePending::Input { is_inputter: false, my_share: None },
        seq![mine.sent[k].payload()],
        modulus,
    ) by {
        let i = mine.sent[k].to as int;
        assert(mine.sent[k].to == others(n, p)[k]);
        assert(turns[i].plays(op, i, n as int, modulus));
        assert(carried(turns, i, 0));
        let m = choose|m: int|
            0 <= m < turns[p].sent.len() && (#[trigger] turns[p].sent[m]).to == i
                && turns[p].sent[m].payload() == turns[i].data[0];
        lemma_sent_once(mine, n, p, k, m);
        assert(values[i] == turns[i].value(modulus));
    }
    assert(values[p] == mine.value(modulus));
    law_input_is_shared(
        mine.before,
        output,
        shares,
        modulus,
        mine.after,
        mine.pending,
        mine.sent,
        values,
    );
}

/// After an addition the values of all parties add up to what both operands add up to.
pub proof fn law_joint_addition(
    left: WireId,
    right: WireId,
    output: WireId,
    turns: Seq<Turn>,
    values: Seq<u64>,
    modulus: u64,
)
    requires
        modulus > 0,
        joint(AdditiveOperation::Add { left, right, output }, turns, modulus),
        ends_with(turns, values, modulus),
    ensures
        forall|i: int|
            0 <= i < turns.len() ==> #[trigger] values[i] == (operand(turns, 0)[i] + operand(
                turns,
                1,
            )[i]) % modulus as int,
        sum(values) % modulus as int == (sum(operand(turns, 0)) + sum(operand(turns, 1)))
            % modulus as int,
{
    let op = AdditiveOperation::Add { left, right, output };
    assert forall|i: int| 0 <= i < turns.len() implies #[trigger] values[i] == (operand(turns, 0)[i]
        + operand(turns, 1)[i]) % modulus as int by {
        assert(turns[i].plays(op, i, turns.len() as int, modulus));
        assert(values[i] == turns[i].value(modulus));
    }
    law_addition_is_homomorphic(operand(turns, 0), operand(turns, 1), values, modulus);
}

/// After a reveal every party has what the shares of all parties add up to.
pub proof fn law_joint_reveal(
    input: WireId,
    output: WireId,
    turns: Seq<Turn>,
    values: Seq<u64>,
    modulus: u64,
    me: int,
)
    requires
        modulus > 0,
        turns.len() <= usize::MAX,
        joint(AdditiveOperation::Reveal { input, output }, turns, modulus),
        ends_with(turns, values, modulus),
        reduced(operand(turns, 0), modulus),
        0 <= me < turns.len(),
    ensures
        values[me] == sum(operand(turns, 0)) % modulus as int,
{
    let op = AdditiveOperation::Reveal { input, output };
    let n = turns.len();
    let shares = operand(turns, 0);
    let mine = turns[me];
    assert(mine.plays(op, me, n as int, modulus));
    lemma_others(n, me);
    assert forall|k: int| 0 <= k < mine.data.len() implies #[trigger] mine.data[k] == shares[others(
        n,
        me,
    )[k]] by {
        assert(mine.awaited[k].from == others(n, me)[k]);
        let from = mine.awaited[k].from as int;
        assert(carried(turns, me, k));
        let m = choose|m: int|
            0 <= m < turns[from].sent.len() && (#[trigger] turns[from].sent[m]).to == me
                && turns[from].sent[m].payload() == mine.data[k];
        assert(turns[from].plays(op, from, n as int, modulus));
        assert(turns[from].sent[m].payload() == turns[from].inputs[0]);
    }
    law_reveal_opens_the_sum(shares, me, mine.data, modulus);
    assert(values[me] == mine.value(modulus));
}

} // verus!

verus! {

/// How all parties run a circuit: its operations in the order in which they run, the turns of all
/// parties in each of them, and the values of the wires at each party in the end.
pub struct Run {
    /// The operations.
    pub ops: Seq<AdditiveOperation>,
    /// For each operation, the turns of the parties.
    pub turns: Seq<Seq<Turn>>,
    /// For each party, the values of the wires.
    pub wires: Seq<Map<usize, u64>>,
    /// The modulus.
    pub modulus: u64,
}

/// Whether an operation of `n` parties fits the types of its wires: only values of the same type
/// are added, only shared values are revealed, and inputs come from one of the parties.
pub open spec fn suits(op: AdditiveOperation, n: int, types: Map<usize, WireType>) -> bool {
    &&& types.contains_key(output_of(op).0)
    &&& type_of(op, types) == Some(types[output_of(op).0])
    &&& match op {
        AdditiveOperation::Input { party_id, .. } => party_id < n,
        AdditiveOperation::GenRandom { .. } => true,
        AdditiveOperation::Add { left, right, .. } => types[left.0] == types[right.0],
        AdditiveOperation::Reveal { input, .. } => types.contains_key(input.0) && types[input.0]
            == WireType::Shared,
    }
}

impl Run {
    /// The values of the wire `w` at the parties.
    pub open spec fn column(self, w: WireId) -> Seq<u64> {
        Seq::new(self.wires.len(), |i: int| self.wires[i][w.0])
    }

    /// Whether the parties run the operation `k` together, on the values of the wires.
    pub open spec fn runs(self, k: int) -> bool {
        let op = self.ops[k];
        &&& self.turns[k].len() == self.wires.len()
        &&& joint(op, self.turns[k], self.modulus)
        &&& forall|i: int|
            0 <= i < self.wires.len() ==> (#[trigger] self.turns[k][i]).inputs == gather(
                self.wires[i],
                op.input_wires(),
            )
        &&& ends_with(self.turns[k], self.column(output_of(op)), self.modulus)
    }

    /// Whether the operation `k` consumes only what operations before it produce, and produces a
    /// wire that no other operation produces.
    pub open spec fn in_order(self, k: int) -> bool {
        &&& forall|w: WireId| #[trigger]
            self.ops[k].input_wires().contains(w) ==> exists|j: int|
                0 <= j < k && output_of(#[trigger] self.ops[j]) == w
        &&& forall|j: int|
            0 <= j < self.ops.len() && j != k ==> output_of(#[trigger] self.ops[j]) != output_of(
                self.ops[k],
            )
    }

    /// Whether the operation `k` fits the types of its wires.
    pub open spec fn fits(self, types: Map<usize, WireType>, k: int) -> bool {
        suits(self.ops[k], self.wires.len() as int, types)
    }

    /// Whether the parties run all operations in order and by their types.
    pub open spec fn valid(self, types: Map<usize, WireType>) -> bool {
        &&& self.modulus > 0
        &&& 0 < self.wires.len() <= usize::MAX
        &&& self.turns.len() == self.ops.len()
        &&& forall|k: int|
            0 <= k < self.ops.len() ==> #[trigger] self.runs(k) && self.in_order(k) && self.fits(
                types,
                k,
            )
    }

    /// What the first `n` operations compute, each in one place: an input is what its party gave,
    /// a random value is what the shares that were drawn add up to, a sum is the sum of its
    /// operands, and a revealed value is what was shared.
    pub open spec fn meaning(self, n: int) -> Map<usize, int>
        decreases n,
    {
        if n <= 0 {
            Map::empty()
        } else {
            let m = self.modulus as int;
            let before = self.meaning(n - 1);
            let op = self.ops[n - 1];
            let value = match op {
                AdditiveOperation::Input { party_id, output } => input_of(
                    self.turns[n - 1][party_id as int].before.given(),
                    output,
                ) as int % m,
                AdditiveOperation::GenRandom { output } => sum(self.column(output)) % m,
                AdditiveOperation::Add { left, right, .. } => (before[left.0] + before[right.0])
                    % m,
                AdditiveOperation::Reveal { input, .. } => before[input.0],
            };
            before.insert(output_of(op).0, value)
        }
    }

    /// Whether the values of the parties for the wire `w` stand for `value`.
    pub open spec fn stands_for(self, types: Map<usize, WireType>, w: WireId, value: int) -> bool {
        &&& reduced(self.column(w), self.modulus)
        &&& match types[w.0] {
            WireType::Shared => sum(self.column(w)) % self.modulus as int == value,
            WireType::Public => forall|i: int|
                0 <= i < self.wires.len() ==> #[trigger] self.column(w)[i] == value,
        }
    }
}

/// The values of one operand of an operation are those of its wire.
proof fn lemma_operand(run: Run, k: int, j: int)
    requires
        run.runs(k),
        0 <= j < run.ops[k].input_wires().len(),
    ensures
        operand(run.turns[k], j) == run.column(run.ops[k].input_wires()[j]),
{
    let turns = run.turns[k];
    let wires = run.ops[k].input_wires();
    assert forall|i: int| 0 <= i < turns.len() implies operand(turns, j)[i] == run.column(
        wires[j],
    )[i] by {
        assert(turns[i].inputs == gather(run.wires[i], wires));
    }
    assert(operand(turns, j) =~= run.column(wires[j]));
}

/// The values after an operation stay below the modulus where those before it did.
proof fn lemma_column_reduced(run: Run, k: int)
    requires
        run.modulus > 0,
        run.runs(k),
        forall|j: int|
            0 <= j < run.ops[k].input_wires().len() ==> reduced(
                run.column(#[trigger] run.ops[k].input_wires()[j]),
                run.modulus,
            ),
    ensures
        reduced(run.column(output_of(run.ops[k])), run.modulus),
{
    let op = run.ops[k];
    let turns = run.turns[k];
    let out = run.column(output_of(op));
    assert forall|i: int| 0 <= i < out.len() implies #[trigger] out[i] < run.modulus by {
        let turn = turns[i];
        assert(turn.plays(op, i, turns.len() as int, run.modulus));
        assert forall|j: int| 0 <= j < turn.inputs.len() implies #[trigger] turn.inputs[j]
            < run.modulus by {
            lemma_operand(run, k, j);
            assert(operand(turns, j)[i] == turn.inputs[j]);
            assert(run.column(op.input_wires()[j])[i] < run.modulus);
        }
        law_values_stay_reduced(
            turn.before,
            op,
            turn.inputs,
            run.modulus,
            turn.after,
            turn.pending,
            turn.sent,
            turn.awaited,
            turn.data,
        );
        assert(out[i] == turn.value(run.modulus));
    }
}

/// A wire that an operation consumes stands for its meaning.
proof fn lemma_consumed(run: Run, types: Map<usize, WireType>, n: int, w: WireId)
    requires
        run.valid(types),
        0 <= n < run.ops.len(),
        run.ops[n].input_wires().contains(w),
        forall|j: int|
            0 <= j < n ==> run.stands_for(
                types,
                output_of(#[trigger] run.ops[j]),
                run.meaning(n)[output_of(run.ops[j]).0],
            ),
    ensures
        run.stands_for(types, w, run.meaning(n)[w.0]),
{
    assert(run.runs(n));
    let j = choose|j: int| 0 <= j < n && output_of(#[trigger] run.ops[j]) == w;
    assert(output_of(run.ops[j]) == w);
}

/// The next operation stands for its meaning.
proof fn lemma_next(run: Run, types: Map<usize, WireType>, n: int)
    requires
        run.valid(types),
        0 <= n < run.ops.len(),
        forall|j: int|
            0 <= j < n ==> run.stands_for(
                types,
                output_of(#[trigger] run.ops[j]),
                run.meaning(n)[output_of(run.ops[j]).0],
            ),
    ensures
        run.stands_for(
            types,
            output_of(run.ops[n]),
            run.meaning(n + 1)[output_of(run.ops[n]).0],
        ),
{
    let op = run.ops[n];
    let turns = run.turns[n];
    let m = run.modulus as int;
    let w = output_of(op);
    let out = run.column(w);
    assert(run.runs(n));
    assert forall|j: int| 0 <= j < op.input_wires().len() implies reduced(
        run.column(#[trigger] op.input_wires()[j]),
        run.modulus,
    ) by {
        lemma_consumed(run, types, n, op.input_wires()[j]);
    }
    lemma_column_reduced(run, n);
    match op {
        AdditiveOperation::Input { party_id, output } => {
            law_joint_input(party_id, output, turns, out, run.modulus);
        },
        AdditiveOperation::GenRandom { .. } => {},
        AdditiveOperation::Add { left, right, output } => {
            assert(op.input_wires()[0] == left && op.input_wires()[1] == right);
            lemma_consumed(run, types, n, left);
            lemma_consumed(run, types, n, right);
            lemma_operand(run, n, 0);
            lemma_operand(run, n, 1);
            law_joint_addition(left, right, output, turns, out, run.modulus);
            let a = run.column(left);
            let b = run.column(right);
            vstd::arithmetic::div_mod::lemma_add_mod_noop(sum(a), sum(b), m);
            if types[left.0] == WireType::Public {
                assert forall|i: int| 0 <= i < run.wires.len() implies #[trigger] out[i]
                    == run.meaning(n + 1)[w.0] by {
                    assert(a[i] == run.meaning(n)[left.0]);
                    assert(b[i] == run.meaning(n)[right.0]);
                    assert(out[i] == (a[i] + b[i]) % m);
                }
            }
        },
        AdditiveOperation::Reveal { input, output } => {
            assert(op.input_wires()[0] == input);
            lemma_consumed(run, types, n, input);
            lemma_operand(run, n, 0);
            assert forall|i: int| 0 <= i < run.wires.len() implies #[trigger] out[i] == run.meaning(
                n + 1,
            )[w.0] by {
                law_joint_reveal(input, output, turns, out, run.modulus, i);
            }
        },
    }
}

/// Later operations do not change what a wire means.
proof fn lemma_meaning_kept(run: Run, types: Map<usize, WireType>, n: int)
    requires
        run.valid(types),
        0 <= n <= run.ops.len(),
    ensures
        forall|j: int|
            0 <= j < n ==> run.stands_for(
                types,
                output_of(#[trigger] run.ops[j]),
                run.meaning(n)[output_of(run.ops[j]).0],
            ),
    decreases n,
{
    if n > 0 {
        lemma_meaning_kept(run, types, n - 1);
        lemma_next(run, types, n - 1);
        assert(run.runs(n - 1));
        assert forall|j: int| 0 <= j < n implies run.stands_for(
            types,
            output_of(#[trigger] run.ops[j]),
            run.meaning(n)[output_of(run.ops[j]).0],
        ) by {
            if j < n - 1 {
                assert(output_of(run.ops[j]) != output_of(run.ops[n - 1]));
                assert(output_of(run.ops[j]).0 != output_of(run.ops[n - 1]).0);
                assert(run.meaning(n)[output_of(run.ops[j]).0] == run.meaning(n - 1)[output_of(
                    run.ops[j],
                ).0]);
            }
        }
    }
}

/// The parties compute together what the circuit says: the shares of each shared wire add up to
/// its meaning, and every party has the meaning of each public wire.
pub proof fn law_parties_compute_the_circuit(run: Run, types: Map<usize, WireType>, k: int)
    requires
        run.valid(types),
        0 <= k < run.ops.len(),
    ensures
        run.stands_for(
            types,
            output_of(run.ops[k]),
            run.meaning(run.ops.len() as int)[output_of(run.ops[k]).0],
        ),
{
    lemma_meaning_kept(run, types, run.ops.len() as int);
    assert(output_of(run.ops[k]) == output_of(run.ops[k]));
}

} // verus!
