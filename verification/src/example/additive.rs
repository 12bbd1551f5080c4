//! Additive secret sharing over the integers modulo `M`.

use std::collections::HashMap;
use std::convert::Infallible;

use rand::Rng;
use vstd::prelude::*;

use crate::mpc::circuit::{MpcCircuit, WireId};
use crate::mpc::scheme::{answers, FinalizePhaseOutput, MpcScheme, NetworkPhaseOutput, Operation};
use crate::networking::network::{other_parties, others, ReceiveRequest, SendRequest};
use crate::seqs::join;

verus! {

broadcast use vstd::std_specs::hash::group_hash_axioms;

/// An operation on shared and public values.
#[derive(Debug, Clone)]
pub enum AdditiveOperation {
    /// The party `party_id` shares a value among all parties.
    Input { party_id: usize, output: WireId },
    /// Each party picks a share of a value that nobody knows.
    GenRandom { output: WireId },
    /// Adds two values.
    Add { left: WireId, right: WireId, output: WireId },
    /// Opens a shared value to all parties.
    Reveal { input: WireId, output: WireId },
}

impl Operation for AdditiveOperation {
    open spec fn input_party(&self) -> Option<usize> {
        match self {
            AdditiveOperation::Input { party_id, .. } => Some(*party_id),
            _ => None,
        }
    }

    open spec fn input_wires(&self) -> Seq<WireId> {
        match self {
            AdditiveOperation::Input { .. } | AdditiveOperation::GenRandom { .. } => Seq::empty(),
            AdditiveOperation::Add { left, right, .. } => seq![*left, *right],
            AdditiveOperation::Reveal { input, .. } => seq![*input],
        }
    }

    open spec fn output_wires(&self) -> Seq<WireId> {
        match self {
            AdditiveOperation::Input { output, .. } => seq![*output],
            AdditiveOperation::GenRandom { output } => seq![*output],
            AdditiveOperation::Add { output, .. } => seq![*output],
            AdditiveOperation::Reveal { output, .. } => seq![*output],
        }
    }

    proof fn input_yields_one_output(&self) {
    }

    fn get_input_party_id(&self) -> (party: Option<usize>) {
        match self {
            AdditiveOperation::Input { party_id, .. } => Some(*party_id),
            _ => None,
        }
    }

    fn inputs(&self) -> (wires: Vec<WireId>) {
        match self {
            AdditiveOperation::Input { .. } | AdditiveOperation::GenRandom { .. } => Vec::new(),
            AdditiveOperation::Add { left, right, .. } => vec![*left, *right],
            AdditiveOperation::Reveal { input, .. } => vec![*input],
        }
    }

    fn outputs(&self) -> (wires: Vec<WireId>) {
        match self {
            AdditiveOperation::Input { output, .. } => vec![*output],
            AdditiveOperation::GenRandom { output } => vec![*output],
            AdditiveOperation::Add { output, .. } => vec![*output],
            AdditiveOperation::Reveal { output, .. } => vec![*output],
        }
    }
}

/// Additive secret sharing modulo `M`: the shares of all parties add up to the value.
#[derive(Debug, Clone)]
pub struct AdditiveScheme<const M: u64>;

/// What a party remembers during an execution.
#[derive(Debug)]
pub struct AdditiveContext {
    my_id: usize,
    n_players: usize,
    user_inputs: HashMap<usize, u64>,
}

impl AdditiveContext {
    /// The party.
    pub closed spec fn id(&self) -> usize {
        self.my_id
    }

    /// The number of parties.
    pub closed spec fn parties(&self) -> usize {
        self.n_players
    }

    /// The inputs of the user that are not shared yet.
    pub closed spec fn given(&self) -> Map<usize, u64> {
        self.user_inputs@
    }

    /// Whether `self` belongs to the same party as `other` and holds the given inputs.
    pub open spec fn holds(&self, other: Self, inputs: Map<usize, u64>) -> bool {
        &&& self.id() == other.id()
        &&& self.parties() == other.parties()
        &&& self.given() == inputs
    }
}

/// An operation that waits for its exchange.
#[derive(Debug)]
#[allow(inconsistent_fields)]
pub enum AdditivePending {
    /// An input, with the share that the inputter keeps.
    Input { is_inputter: bool, my_share: Option<u64> },
    /// A random share.
    GenRandom { my_share: u64 },
    /// A sum.
    Add { my_share: u64 },
    /// A share that is opened.
    Reveal { my_share: u64 },
}

/// The sum of all values.
pub open spec fn sum(values: Seq<u64>) -> int
    decreases values.len(),
{
    if values.len() == 0 {
        0
    } else {
        sum(values.drop_last()) + values.last()
    }
}

/// The inputs with those of the user added, each reduced modulo `modulus`.
pub open spec fn with_inputs(
    given: Map<usize, u64>,
    inputs: Seq<(WireId, u64)>,
    modulus: u64,
) -> Map<usize, u64>
    decreases inputs.len(),
{
    if inputs.len() == 0 {
        given
    } else {
        with_inputs(given, inputs.drop_last(), modulus).insert(
            inputs.last().0.0,
            inputs.last().1 % modulus,
        )
    }
}

/// The values that requests carry, in order.
pub open spec fn payloads(requests: Seq<SendRequest<'static, u64>>) -> Seq<u64> {
    requests.map_values(|request: SendRequest<'static, u64>| request.payload())
}

/// Whether the requests go to the parties other than `me`, one to each, in ascending order.
pub open spec fn to_others(requests: Seq<SendRequest<'static, u64>>, n: nat, me: int) -> bool {
    &&& requests.len() == others(n, me).len()
    &&& forall|i: int| 0 <= i < requests.len() ==> (#[trigger] requests[i]).to == others(n, me)[i]
}

/// Whether one value is awaited from each party other than `me`, in ascending order.
pub open spec fn from_others(requests: Seq<ReceiveRequest<u64>>, n: nat, me: int) -> bool {
    &&& requests.len() == others(n, me).len()
    &&& forall|i: int|
        0 <= i < requests.len() ==> (#[trigger] requests[i]).from == others(n, me)[i]
            && requests[i].count == Some(1usize)
}

/// The input that the user gave for a wire, or zero.
pub open spec fn input_of(given: Map<usize, u64>, wire: WireId) -> u64 {
    if given.contains_key(wire.0) {
        given[wire.0]
    } else {
        0
    }
}

/// The share that the inputter of `input` keeps when the others get `shares`.
pub open spec fn kept_share(input: u64, shares: Seq<u64>, modulus: u64) -> int {
    (input - sum(shares)) % modulus as int
}

/// The value that a party opens which holds `my_share` and receives `received`.
pub open spec fn opened(my_share: u64, received: Seq<u64>, modulus: u64) -> int {
    if received.len() == 0 {
        my_share as int
    } else {
        (my_share + sum(received)) % modulus as int
    }
}

/// A number below `bound`, picked at random with `rand::Rng::gen_range` on the generator of the
/// thread; which number it is, is left open.
#[verifier::external_body]
fn random_below(bound: u64) -> (value: u64)
    requires
        bound > 0,
    ensures
        value < bound,
{
    rand::thread_rng().gen_range(0..bound)
}

/// Picks `count` shares at random.
fn random_shares(count: usize, modulus: u64) -> (shares: Vec<u64>)
    requires
        modulus > 0,
    ensures
        shares@.len() == count,
        forall|i: int| 0 <= i < count ==> #[trigger] shares@[i] < modulus,
{
    let mut shares: Vec<u64> = Vec::new();
    while shares.len() < count
        invariant
            modulus > 0,
            shares@.len() <= count,
            forall|i: int| 0 <= i < shares@.len() ==> #[trigger] shares@[i] < modulus,
        decreases count - shares@.len(),
    {
        shares.push(random_below(modulus));
    }
    shares
}

/// Adds modulo `modulus`.
pub fn add_mod(a: u64, b: u64, modulus: u64) -> (r: u64)
    requires
        modulus > 0,
    ensures
        r == (a + b) % modulus as int,
        r < modulus,
{
    ((a as u128 + b as u128) % (modulus as u128)) as u64
}

/// Adds all values modulo `modulus`.
pub fn sum_mod(values: &[u64], modulus: u64) -> (r: u64)
    requires
        modulus > 0,
    ensures
        r == sum(values@) % modulus as int,
{
    let mut total: u64 = 0;
    let mut i: usize = 0;
    proof {
        assert(values@.take(0) =~= Seq::empty());
        vstd::arithmetic::div_mod::lemma_small_mod(0, modulus as nat);
    }
    while i < values.len()
        invariant
            modulus > 0,
            i <= values@.len(),
            total == sum(values@.take(i as int)) % modulus as int,
        decreases values@.len() - i,
    {
        total = add_mod(total, values[i], modulus);
        proof {
            assert(values@.take(i + 1).drop_last() =~= values@.take(i as int));
            vstd::arithmetic::div_mod::lemma_add_mod_noop_right(
                values@[i as int] as int,
                sum(values@.take(i as int)),
                modulus as int,
            );
        }
        i = i + 1;
    }
    proof {
        assert(values@.take(i as int) =~= values@);
    }
    total
}

} // verus!

verus! {

/// What the inputter of `output` hands out and keeps, when the others get `shares`.
pub open spec fn shared_input(
    before: AdditiveContext,
    output: WireId,
    shares: Seq<u64>,
    modulus: u64,
    after: AdditiveContext,
    pending: AdditivePending,
    sent: Seq<SendRequest<'static, u64>>,
) -> bool {
    let input = input_of(before.given(), output);
    &&& after.holds(before, before.given().remove(output.0))
    &&& to_others(sent, before.parties() as nat, before.id() as int)
    &&& payloads(sent) == shares
    &&& pending matches AdditivePending::Input { is_inputter: true, my_share: Some(share) }
    &&& share == kept_share(input, shares, modulus)
}

/// Whether all values are below the modulus.
pub open spec fn reduced(values: Seq<u64>, modulus: u64) -> bool {
    forall|i: int| 0 <= i < values.len() ==> #[trigger] values[i] < modulus
}

/// What the network phase of `op` may make of a context, send and await.
pub open spec fn additive_phase(
    before: AdditiveContext,
    op: AdditiveOperation,
    inputs: Seq<u64>,
    modulus: u64,
    after: AdditiveContext,
    pending: AdditivePending,
    sent: Seq<SendRequest<'static, u64>>,
    awaited: Seq<ReceiveRequest<u64>>,
) -> bool {
    let n = before.parties() as nat;
    let me = before.id() as int;
    match op {
        AdditiveOperation::Input { party_id, output } => if party_id == before.id() {
            &&& awaited.len() == 0
            &&& exists|shares: Seq<u64>|
                reduced(shares, modulus) && #[trigger] shared_input(
                    before,
                    output,
                    shares,
                    modulus,
                    after,
                    pending,
                    sent,
                )
        } else {
            &&& after.holds(before, before.given())
            &&& sent.len() == 0
            &&& awaited.len() == 1
            &&& awaited[0].from == party_id
            &&& awaited[0].count == Some(1usize)
            &&& pending == (AdditivePending::Input { is_inputter: false, my_share: None })
        },
        AdditiveOperation::GenRandom { .. } => {
            &&& after.holds(before, before.given())
            &&& sent.len() == 0
            &&& awaited.len() == 0
            &&& pending matches AdditivePending::GenRandom { my_share }
            &&& my_share < modulus
        },
        AdditiveOperation::Add { .. } => {
            &&& after.holds(before, before.given())
            &&& sent.len() == 0
            &&& awaited.len() == 0
            &&& pending matches AdditivePending::Add { my_share }
            &&& my_share == (inputs[0] + inputs[1]) % modulus as int
        },
        AdditiveOperation::Reveal { .. } => {
            &&& after.holds(before, before.given())
            &&& to_others(sent, n, me)
            &&& forall|i: int|
                0 <= i < sent.len() ==> (#[trigger] sent[i]).payload() == inputs[0]
            &&& from_others(awaited, n, me)
            &&& pending == (AdditivePending::Reveal { my_share: inputs[0] })
        },
    }
}

/// The value that a pending operation has once `data` is there.
pub open spec fn additive_value(pending: AdditivePending, data: Seq<u64>, modulus: u64) -> int {
    match pending {
        AdditivePending::Input { is_inputter, my_share } => if is_inputter {
            my_share.unwrap() as int
        } else {
            data[0] as int % modulus as int
        },
        AdditivePending::GenRandom { my_share } => my_share as int,
        AdditivePending::Add { my_share } => my_share as int,
        AdditivePending::Reveal { my_share } => opened(my_share, data, modulus),
    }
}

/// Requests that carry `values` to `parties`, one each.
fn send_each(parties: &Vec<usize>, values: Vec<u64>) -> (requests: Vec<SendRequest<'static, u64>>)
    requires
        parties@.len() == values@.len(),
    ensures
        payloads(requests@) == values@,
        forall|i: int| 0 <= i < parties@.len() ==> (#[trigger] requests@[i]).to == parties@[i],
{
    let mut requests: Vec<SendRequest<'static, u64>> = Vec::new();
    let mut i: usize = 0;
    while i < parties.len()
        invariant
            i <= parties@.len() == values@.len(),
            requests@.len() == i,
            forall|j: int| 0 <= j < i ==> (#[trigger] requests@[j]).to == parties@[j],
            forall|j: int| 0 <= j < i ==> (#[trigger] requests@[j]).payload() == values@[j],
        decreases parties@.len() - i,
    {
        requests.push(SendRequest::new(parties[i], values[i]));
        i = i + 1;
    }
    assert(payloads(requests@) =~= values@);
    requests
}

/// Requests for one value from each of the parties.
fn receive_each(parties: &Vec<usize>) -> (requests: Vec<ReceiveRequest<u64>>)
    ensures
        requests@.len() == parties@.len(),
        forall|i: int|
            0 <= i < parties@.len() ==> (#[trigger] requests@[i]).from == parties@[i]
                && requests@[i].count == Some(1usize),
{
    let mut requests: Vec<ReceiveRequest<u64>> = Vec::new();
    let mut i: usize = 0;
    while i < parties.len()
        invariant
            i <= parties@.len(),
            requests@.len() == i,
            forall|j: int|
                0 <= j < i ==> (#[trigger] requests@[j]).from == parties@[j]
                    && requests@[j].count == Some(1usize),
        decreases parties@.len() - i,
    {
        requests.push(ReceiveRequest::new(parties[i], 1));
        i = i + 1;
    }
    requests
}

/// As many copies of a value as asked for.
fn copies(value: u64, count: usize) -> (values: Vec<u64>)
    ensures
        values@.len() == count,
        forall|i: int| 0 <= i < count ==> #[trigger] values@[i] == value,
{
    let mut values: Vec<u64> = Vec::new();
    while values.len() < count
        invariant
            values@.len() <= count,
            forall|i: int| 0 <= i < values@.len() ==> #[trigger] values@[i] == value,
        decreases count - values@.len(),
    {
        values.push(value);
    }
    values
}

impl<const M: u64> AdditiveScheme<M> {
    /// Shares the input of the user for `output`: the other parties get `shares`, and this party
    /// keeps what is missing.
    pub fn share_input(
        &self,
        context: &mut AdditiveContext,
        output: WireId,
        shares: Vec<u64>,
    ) -> (shared: (AdditivePending, Vec<SendRequest<'static, u64>>))
        requires
            M != 0,
            shares@.len() == others(
                old(context).parties() as nat,
                old(context).id() as int,
            ).len(),
        ensures
            shared_input(
                *old(context),
                output,
                shares@,
                M,
                *final(context),
                shared.0,
                shared.1@,
            ),
    {
        let input = match context.user_inputs.remove(&output.0) {
            Some(value) => value,
            None => 0,
        };
        let total = sum_mod(&shares, M);
        let share = add_mod(input, M - total, M);
        proof {
            let m = M as int;
            let s = sum(shares@);
            vstd::arithmetic::div_mod::lemma_fundamental_div_mod(s, m);
            vstd::arithmetic::div_mod::lemma_mod_multiples_vanish(1 + s / m, input - s, m);
            let q = s / m;
            assert(m * (1 + q) == m + m * q) by (nonlinear_arith);
        }
        let parties = other_parties(context.n_players, context.my_id);
        let pending = AdditivePending::Input { is_inputter: true, my_share: Some(share) };
        (pending, send_each(&parties, shares))
    }
}

} // verus!

verus! {

impl<const M: u64> MpcScheme for AdditiveScheme<M> {
    type Context = AdditiveContext;

    type NetworkElement = u64;

    type Wire = u64;

    type Input = u64;

    type Operation = AdditiveOperation;

    type Pending = AdditivePending;

    type EstablishContextError = Infallible;

    type NetworkPhaseError = Infallible;

    type FinalizePhaseError = Infallible;

    /// Shares and public values may be mixed freely: whatever the types of the wires are, only the
    /// modulus matters.
    open spec fn sound(&self, circuit: Seq<AdditiveOperation>) -> bool {
        M != 0
    }

    open spec fn local(&self, op: AdditiveOperation) -> bool {
        op is Add || op is GenRandom
    }

    open spec fn usable(&self) -> bool {
        M != 0
    }

    open spec fn established(
        &self,
        my_id: usize,
        n_players: usize,
        circuit: MpcCircuit<Self>,
        result: Result<AdditiveContext, Infallible>,
    ) -> bool {
        &&& result matches Ok(context)
        &&& context.id() == my_id
        &&& context.parties() == n_players
        &&& context.given() == Map::<usize, u64>::empty()
    }

    open spec fn prepared(
        &self,
        before: AdditiveContext,
        inputs: Seq<(WireId, u64)>,
        after: AdditiveContext,
    ) -> bool {
        after.holds(before, with_inputs(before.given(), inputs, M))
    }

    open spec fn network_phase(
        &self,
        before: AdditiveContext,
        op: AdditiveOperation,
        inputs: Seq<u64>,
        after: AdditiveContext,
        result: Result<NetworkPhaseOutput<Self>, Infallible>,
    ) -> bool {
        &&& result matches Ok(output)
        &&& additive_phase(
            before,
            op,
            inputs,
            M,
            after,
            output.pending,
            output.send_request@,
            output.receive_request@,
        )
    }

    open spec fn accepts(&self, pending: AdditivePending, data: Seq<u64>) -> bool {
        pending matches AdditivePending::Input { is_inputter, my_share } ==> if is_inputter {
            my_share is Some
        } else {
            data.len() > 0
        }
    }

    open spec fn finalize_phase(
        &self,
        before: AdditiveContext,
        pending: AdditivePending,
        data: Seq<u64>,
        after: AdditiveContext,
        result: Result<FinalizePhaseOutput<Self>, Infallible>,
    ) -> bool {
        &&& after == before
        &&& result matches Ok(output)
        &&& output.0@.len() == 1
        &&& output.0@[0] == additive_value(pending, data, M)
    }

    proof fn sound_is_usable(&self, circuit: Seq<AdditiveOperation>) {
    }

    proof fn input_is_not_local(&self, op: AdditiveOperation) {
    }

    proof fn network_phase_is_consistent(
        &self,
        before: AdditiveContext,
        op: AdditiveOperation,
        inputs: Seq<u64>,
        after: AdditiveContext,
        output: NetworkPhaseOutput<Self>,
    ) {
        assert forall|data: Seq<Seq<u64>>| #[trigger]
            answers(output.receive_request@, data) implies self.accepts(
            output.pending,
            join(data),
        ) by {
            if output.pending matches AdditivePending::Input { is_inputter, my_share }
                && !is_inputter {
                assert(output.receive_request@.len() == 1);
                assert(output.receive_request@[0].admits(data[0].len()));
                assert(join(data) == join(data.drop_last()) + data[0]);
            }
        }
    }

    proof fn outputs_are_consistent(
        &self,
        op: AdditiveOperation,
        inputs: Seq<u64>,
        output: NetworkPhaseOutput<Self>,
        data: Seq<u64>,
        result: FinalizePhaseOutput<Self>,
        contexts: (AdditiveContext, AdditiveContext, AdditiveContext, AdditiveContext),
    ) {
    }

    fn is_circuit_sound(&self, circuit: &[AdditiveOperation]) -> (b: bool) {
        M != 0
    }

    fn is_operation_local(&self, op: &AdditiveOperation) -> (b: bool)
        ensures
            b == (*op is Add || *op is GenRandom),
    {
        match op {
            AdditiveOperation::Add { .. } | AdditiveOperation::GenRandom { .. } => true,
            _ => false,
        }
    }

    fn establish_context(
        &self,
        my_id: usize,
        n_players: usize,
        circuit: &MpcCircuit<Self>,
    ) -> (result: Result<AdditiveContext, Infallible>)
        ensures
            result is Ok,
            result.unwrap().id() == my_id,
            result.unwrap().parties() == n_players,
            result.unwrap().given().dom() == Set::<usize>::empty(),
    {
        Ok(AdditiveContext { my_id, n_players, user_inputs: HashMap::new() })
    }

    fn prepare_user_input(&self, context: &mut AdditiveContext, inputs: Vec<(WireId, u64)>) {
        let ghost before = *context;
        let mut i: usize = 0;
        assert(inputs@.take(0) =~= Seq::empty());
        while i < inputs.len()
            invariant
                M != 0,
                i <= inputs@.len(),
                context.holds(before, with_inputs(before.given(), inputs@.take(i as int), M)),
            decreases inputs@.len() - i,
        {
            let (wire, value) = inputs[i];
            context.user_inputs.insert(wire.0, value % M);
            proof {
                assert(inputs@.take(i + 1).drop_last() =~= inputs@.take(i as int));
            }
            i = i + 1;
        }
        assert(inputs@.take(i as int) =~= inputs@);
    }

    fn do_network_phase(
        &self,
        context: &mut AdditiveContext,
        op: &AdditiveOperation,
        inputs: Vec<&u64>,
    ) -> (result: Result<NetworkPhaseOutput<Self>, Infallible>) {
        let mut send_request: Vec<SendRequest<'static, u64>> = Vec::new();
        let mut receive_request: Vec<ReceiveRequest<u64>> = Vec::new();
        let others = other_parties(context.n_players, context.my_id);
        let pending = match op {
            AdditiveOperation::Input { party_id, output } => {
                if context.my_id == *party_id {
                    let shares = random_shares(others.len(), M);
                    let ghost drawn = shares@;
                    let (pending, sent) = self.share_input(context, *output, shares);
                    assert(reduced(drawn, M));
                    assert(shared_input(*old(context), *output, drawn, M, *context, pending, sent@));
                    send_request = sent;
                    pending
                } else {
                    receive_request.push(ReceiveRequest::new(*party_id, 1));
                    AdditivePending::Input { is_inputter: false, my_share: None }
                }
            },
            AdditiveOperation::GenRandom { .. } => AdditivePending::GenRandom {
                my_share: random_below(M),
            },
            AdditiveOperation::Add { .. } => AdditivePending::Add {
                my_share: add_mod(*inputs[0], *inputs[1], M),
            },
            AdditiveOperation::Reveal { .. } => {
                let my_share: u64 = *inputs[0];
                let shares = copies(my_share, others.len());
                send_request = send_each(&others, shares);
                assert forall|i: int| 0 <= i < send_request@.len() implies (
                #[trigger] send_request@[i]).payload() == my_share by {
                    assert(payloads(send_request@)[i] == my_share);
                }
                receive_request = receive_each(&others);
                AdditivePending::Reveal { my_share }
            },
        };
        Ok(NetworkPhaseOutput { pending, send_request, receive_request })
    }

    fn do_finalize_phase(
        &self,
        context: &mut AdditiveContext,
        pending: AdditivePending,
        network_data: Vec<u64>,
    ) -> (result: Result<FinalizePhaseOutput<Self>, Infallible>) {
        let value = match pending {
            AdditivePending::Input { is_inputter, my_share } => {
                if is_inputter {
                    my_share.unwrap()
                } else {
                    network_data[0] % M
                }
            },
            AdditivePending::GenRandom { my_share } => my_share,
            AdditivePending::Add { my_share } => my_share,
            AdditivePending::Reveal { my_share } => {
                if network_data.len() == 0 {
                    my_share
                } else {
                    proof {
                        vstd::arithmetic::div_mod::lemma_add_mod_noop_right(
                            my_share as int,
                            sum(network_data@),
                            M as int,
                        );
                    }
                    add_mod(my_share, sum_mod(&network_data, M), M)
                }
            },
        };
        Ok(FinalizePhaseOutput(vec![value]))
    }
}

} // verus!

verus! {

/// The parties other than `me` are those below and those above.
pub proof fn lemma_others(n: nat, me: int)
    requires
        0 <= me,
    ensures
        me < n ==> others(n, me).len() == n - 1,
        me >= n ==> others(n, me).len() == n,
        forall|k: int|
            0 <= k < others(n, me).len() ==> #[trigger] others(n, me)[k] == if k < me {
                k
            } else {
                k + 1
            },
    decreases n,
{
    if n > 0 {
        lemma_others((n - 1) as nat, me);
    }
}

/// A sum is its last value and the sum of the others.
proof fn lemma_sum_push(values: Seq<u64>, value: u64)
    ensures
        sum(values.push(value)) == sum(values) + value,
{
    assert(values.push(value).drop_last() =~= values);
}

/// A sum is any one of its values and the sum of the others.
proof fn lemma_sum_remove(values: Seq<u64>, i: int)
    requires
        0 <= i < values.len(),
    ensures
        sum(values) == values[i] + sum(values.remove(i)),
    decreases values.len(),
{
    let last = values.len() - 1;
    if i == last {
        assert(values.remove(i) =~= values.drop_last());
    } else {
        lemma_sum_remove(values.drop_last(), i);
        assert(values.remove(i) =~= values.drop_last().remove(i).push(values[last]));
        lemma_sum_push(values.drop_last().remove(i), values[last]);
    }
}

/// Values that agree modulo `modulus` have sums that do.
proof fn lemma_sum_mod(a: Seq<u64>, b: Seq<u64>, modulus: int)
    requires
        modulus > 0,
        a.len() == b.len(),
        forall|i: int| 0 <= i < a.len() ==> #[trigger] a[i] as int % modulus == b[i] as int % modulus,
    ensures
        sum(a) % modulus == sum(b) % modulus,
    decreases a.len(),
{
    if a.len() > 0 {
        assert forall|i: int| 0 <= i < a.drop_last().len() implies #[trigger] a.drop_last()[i] as int
            % modulus == b.drop_last()[i] as int % modulus by {
            assert(a[i] as int % modulus == b[i] as int % modulus);
        }
        lemma_sum_mod(a.drop_last(), b.drop_last(), modulus);
        let i = a.len() - 1;
        assert(a[i] as int % modulus == b[i] as int % modulus);
        vstd::arithmetic::div_mod::lemma_add_mod_noop(
            sum(a.drop_last()),
            a.last() as int,
            modulus,
        );
        vstd::arithmetic::div_mod::lemma_add_mod_noop(
            sum(b.drop_last()),
            b.last() as int,
            modulus,
        );
    }
}

/// After an input operation the values of all parties add up to the input of the inputter,
/// whatever shares were drawn.
pub proof fn law_input_is_shared(
    before: AdditiveContext,
    output: WireId,
    shares: Seq<u64>,
    modulus: u64,
    after: AdditiveContext,
    pending: AdditivePending,
    sent: Seq<SendRequest<'static, u64>>,
    values: Seq<u64>,
)
    requires
        modulus > 0,
        before.id() < before.parties(),
        shared_input(before, output, shares, modulus, after, pending, sent),
        values.len() == before.parties(),
        values[before.id() as int] == additive_value(pending, Seq::empty(), modulus),
        forall|k: int|
            0 <= k < sent.len() ==> values[(#[trigger] sent[k]).to as int] == additive_value(
                AdditivePending::Input { is_inputter: false, my_share: None },
                seq![sent[k].payload()],
                modulus,
            ),
    ensures
        sum(values) % modulus as int == input_of(before.given(), output) as int % modulus as int,
{
    let n = before.parties() as nat;
    let me = before.id() as int;
    let m = modulus as int;
    let input = input_of(before.given(), output) as int;
    lemma_others(n, me);
    lemma_sum_remove(values, me);
    let rest = values.remove(me);
    assert forall|k: int| 0 <= k < rest.len() implies #[trigger] rest[k] as int % m
        == shares[k] as int % m by {
        assert(values[sent[k].to as int] == rest[k]);
        assert(payloads(sent)[k] == shares[k]);
        vstd::arithmetic::div_mod::lemma_mod_twice(shares[k] as int, m);
    }
    assert(payloads(sent).len() == sent.len());
    lemma_sum_mod(rest, shares, m);
    vstd::arithmetic::div_mod::lemma_add_mod_noop(values[me] as int, sum(rest), m);
    vstd::arithmetic::div_mod::lemma_add_mod_noop(values[me] as int, sum(shares), m);
    vstd::arithmetic::div_mod::lemma_add_mod_noop(input - sum(shares), sum(shares), m);
    vstd::arithmetic::div_mod::lemma_mod_twice(input - sum(shares), m);
}

/// After an addition the values of all parties add up to the sum of what both operands add up to.
pub proof fn law_addition_is_homomorphic(
    left: Seq<u64>,
    right: Seq<u64>,
    values: Seq<u64>,
    modulus: u64,
)
    requires
        modulus > 0,
        left.len() == right.len() == values.len(),
        forall|i: int|
            0 <= i < values.len() ==> #[trigger] values[i] == (left[i] + right[i]) % modulus as int,
    ensures
        sum(values) % modulus as int == (sum(left) + sum(right)) % modulus as int,
    decreases values.len(),
{
    if values.len() > 0 {
        let m = modulus as int;
        let i = values.len() - 1;
        assert forall|j: int| 0 <= j < i implies #[trigger] values.drop_last()[j] == (
        left.drop_last()[j] + right.drop_last()[j]) % m by {
            assert(values[j] == (left[j] + right[j]) % m);
        }
        law_addition_is_homomorphic(
            left.drop_last(),
            right.drop_last(),
            values.drop_last(),
            modulus,
        );
        let rest = sum(left.drop_last()) + sum(right.drop_last());
        assert(values[i] == (left[i] + right[i]) % m);
        vstd::arithmetic::div_mod::lemma_add_mod_noop(
            sum(values.drop_last()),
            values[i] as int,
            m,
        );
        vstd::arithmetic::div_mod::lemma_add_mod_noop(rest, left[i] + right[i], m);
        vstd::arithmetic::div_mod::lemma_mod_twice(left[i] + right[i], m);
    }
}

/// Every party that opens a value gets what the shares of all parties add up to.
pub proof fn law_reveal_opens_the_sum(
    shares: Seq<u64>,
    me: int,
    received: Seq<u64>,
    modulus: u64,
)
    requires
        modulus > 0,
        0 <= me < shares.len(),
        reduced(shares, modulus),
        received.len() == others(shares.len(), me).len(),
        forall|k: int|
            0 <= k < received.len() ==> #[trigger] received[k] == shares[others(
                shares.len(),
                me,
            )[k]],
    ensures
        additive_value(AdditivePending::Reveal { my_share: shares[me] }, received, modulus) == sum(
            shares,
        ) % modulus as int,
{
    lemma_others(shares.len(), me);
    lemma_sum_remove(shares, me);
    assert(received =~= shares.remove(me));
    if received.len() == 0 {
        assert(sum(shares.remove(me)) == 0);
        vstd::arithmetic::div_mod::lemma_small_mod(shares[me] as nat, modulus as nat);
    }
}

/// All values stay below the modulus.
pub proof fn law_values_stay_reduced(
    before: AdditiveContext,
    op: AdditiveOperation,
    inputs: Seq<u64>,
    modulus: u64,
    after: AdditiveContext,
    pending: AdditivePending,
    sent: Seq<SendRequest<'static, u64>>,
    awaited: Seq<ReceiveRequest<u64>>,
    data: Seq<u64>,
)
    requires
        modulus > 0,
        inputs.len() == op.input_wires().len(),
        reduced(inputs, modulus),
        additive_phase(before, op, inputs, modulus, after, pending, sent, awaited),
    ensures
        0 <= additive_value(pending, data, modulus) < modulus,
{
}

} // verus!
