//! The execution of a circuit by one party, as a state machine without input or output.
//!
//! Each step either completes, or asks for an exchange with the other parties; the next step is
//! given what the exchange brought.

use std::collections::HashMap;

use itertools::Itertools;
use vstd::prelude::*;
use vstd::std_specs::iter::IteratorSpec;

use crate::mpc::circuit::{
    all_outputs, lemma_all_outputs_add, network_inputs_by, outputs_of, round_ready, run_order,
    Round, WireId,
};
use crate::mpc::config::MpcConfig;
use crate::mpc::digest::{sha3_512, sha3_512_digest};
use crate::mpc::error::{ExecutionContextError, ExecutionState};
use crate::mpc::phases::{
    assigned_twice, assigned_twice_error, data_for, feasible, finalize_stop, finalize_trace,
    finalized, finish_network_operations, fitting, free, gather, ids, is_scheme_error,
    law_answers_are_accepted, law_round_keeps_values, lemma_ids_add, lemma_store_all_domain,
    lemma_store_all_keeps, local_run, network_feasible, network_start, network_trace, outputs_free,
    round_outcome, scheme_error, start_round, store_all, store_outputs, Exchange, PendingRound,
};
use crate::mpc::scheme::{
    answers, Describe, FinalizePhaseOutput, MpcScheme, NetworkPhaseOutput, Operation,
};
use crate::networking::network::{other_parties, others, ReceiveRequest, RecvLen, SendLen};
use crate::seqs::contents;

verus! {

broadcast use vstd::std_specs::hash::group_hash_axioms;

/// The execution of a circuit by one party.
#[verifier::reject_recursive_types(S)]
pub struct ExecutionContext<S: MpcScheme> {
    config: MpcConfig<S>,
    execution_state: ExecutionState,
    wire_contents: HashMap<usize, S::Wire>,
    scheme_context: Option<S::Context>,
    in_flight: Option<(usize, PendingRound<S>)>,
    sent: usize,
    received: usize,
}

/// What a phase does next.
#[verifier::reject_recursive_types(S)]
pub enum Step<S: MpcScheme> {
    /// It waits for an exchange with the other parties.
    Exchange(Exchange<S>),
    /// It is done, and has sent and received as many bytes in all.
    Finished { sent: SendLen, received: RecvLen },
}

/// What a party tells the others, and awaits from them, to agree on the plan.
pub struct Handshake {
    /// The digest of the plan, for every other party.
    pub digest: Vec<u8>,
    /// One digest from each other party.
    pub request: Vec<ReceiveRequest<Vec<u8>>>,
}

/// The rounds of both phases.
pub open spec fn all_rounds<S: MpcScheme>(config: MpcConfig<S>) -> Seq<Round<S>> {
    config.spec_circuit().offline() + config.spec_circuit().online()
}

/// The wires that have values once the first `k` rounds are done.
pub open spec fn wires_after<S: MpcScheme>(config: MpcConfig<S>, k: int) -> Set<usize> {
    ids(all_outputs(run_order(all_rounds(config).take(k))))
}

impl<S: MpcScheme> ExecutionContext<S> {
    /// The configuration.
    pub closed spec fn spec_config(&self) -> MpcConfig<S> {
        self.config
    }

    /// The state of the execution.
    pub closed spec fn state(&self) -> ExecutionState {
        self.execution_state
    }

    /// The values of the wires.
    pub closed spec fn wires(&self) -> Map<usize, S::Wire> {
        self.wire_contents@
    }

    /// The context of the scheme.
    pub closed spec fn context(&self) -> Option<S::Context> {
        self.scheme_context
    }

    /// The round of the current phase that waits for an exchange.
    pub closed spec fn waiting(&self) -> Option<(usize, PendingRound<S>)> {
        self.in_flight
    }

    /// How many bytes the current phase has sent and received.
    pub closed spec fn tally(&self) -> (int, int) {
        (self.sent as int, self.received as int)
    }

    /// The scheme.
    pub open spec fn spec_scheme(&self) -> S {
        self.spec_config().spec_circuit().spec_scheme()
    }

    /// How many rounds come before the current phase, or are done where no phase runs.
    pub open spec fn base(&self) -> int {
        let circuit = self.spec_config().spec_circuit();
        match self.state() {
            ExecutionState::NewBorn | ExecutionState::Handshaked => 0,
            ExecutionState::FinishedOffline | ExecutionState::ReadyOnline => circuit.offline().len() as int,
            ExecutionState::Finished => (circuit.offline().len() + circuit.online().len()) as int,
        }
    }

    /// How many rounds are done once the current phase is.
    pub open spec fn end(&self) -> int {
        let circuit = self.spec_config().spec_circuit();
        match self.state() {
            ExecutionState::NewBorn => 0,
            ExecutionState::Handshaked | ExecutionState::FinishedOffline => circuit.offline().len() as int,
            ExecutionState::ReadyOnline | ExecutionState::Finished => (circuit.offline().len()
                + circuit.online().len()) as int,
        }
    }

    /// Whether the scheme may establish its context with the given result.
    pub open spec fn establishes(
        &self,
        result: Result<S::Context, S::EstablishContextError>,
    ) -> bool {
        self.spec_scheme().established(
            self.spec_config().id(),
            self.spec_config().parties(),
            self.spec_config().spec_circuit(),
            result,
        )
    }

    /// Whether no wire of the current phase has a value yet.
    pub open spec fn unstarted(&self) -> bool {
        self.wires().dom() == wires_after(self.spec_config(), self.base())
    }

    /// Whether `round` holds pending operations of the round `k` of the current phase, and the wires
    /// that are produced before them have values.
    pub open spec fn awaits(&self, k: int, round: PendingRound<S>) -> bool {
        let rounds = all_rounds(self.spec_config());
        &&& 0 <= k
        &&& self.base() + k < self.end()
        &&& (wires_after(self.spec_config(), self.base() + k) + ids(
            all_outputs(rounds[self.base() + k].local()),
        )).subset_of(self.wires().dom())
        &&& issued(self.spec_scheme(), rounds[self.base() + k].network(), round)
    }

    /// What holds throughout an execution.
    pub closed spec fn well_formed(&self) -> bool {
        &&& self.config.well_formed()
        &&& self.scheme_context is Some <==> self.execution_state != ExecutionState::NewBorn
        &&& wires_after(self.config, self.base()).subset_of(self.wire_contents@.dom())
        &&& self.wire_contents@.dom().subset_of(wires_after(self.config, self.end()))
        &&& self.in_flight matches Some(flight) ==> self.awaits(flight.0 as int, flight.1)
        &&& self.base() == self.end() ==> self.in_flight is None
    }
}

/// Whether `round` holds one pending operation for each of `ops`, and how many batches each awaits.
pub open spec fn issued<S: MpcScheme>(
    scheme: S,
    ops: Seq<S::Operation>,
    round: PendingRound<S>,
) -> bool {
    &&& round.pending@.len() == ops.len()
    &&& round.counts@.len() == ops.len()
    &&& forall|k: int|
        0 <= k < ops.len() ==> issued_by(scheme, #[trigger] ops[k], round.pending@[k])
}

/// Whether the network phase of `op` may leave `pending`.
pub open spec fn issued_by<S: MpcScheme>(scheme: S, op: S::Operation, pending: S::Pending) -> bool {
    exists|
        before: S::Context,
        inputs: Seq<S::Wire>,
        after: S::Context,
        output: NetworkPhaseOutput<S>,
    | #[trigger]
        scheme.network_phase(before, op, inputs, after, Ok(output)) && output.pending == pending
}

/// Whether `error` says that the step `op` is not allowed in the state `state`.
pub open spec fn is_state_error(
    error: ExecutionContextError,
    op: Seq<char>,
    state: ExecutionState,
) -> bool {
    error matches ExecutionContextError::StateError { op: o, state: s } && o@ == op && s == state
}

} // verus!

verus! {

/// Whether `requests` asks each other party for one object.
pub open spec fn asks_each<T>(requests: Seq<ReceiveRequest<T>>, parties: Seq<int>) -> bool {
    &&& requests.len() == parties.len()
    &&& forall|i: int|
        0 <= i < requests.len() ==> (#[trigger] requests[i]).from == parties[i]
            && requests[i].count == Some(1usize)
}

/// Whether the first object of every batch is `digest`.
pub open spec fn all_agree(hashes: Seq<Vec<Vec<u8>>>, digest: Seq<u8>) -> bool {
    forall|i: int| 0 <= i < hashes.len() ==> (#[trigger] hashes[i])@[0]@ == digest
}

/// Parties agree exactly where each of them has sent the digest: nobody disagrees where there is
/// nobody, and one more party agrees if its first object is the digest.
pub proof fn law_every_party_has_to_agree(
    hashes: Seq<Vec<Vec<u8>>>,
    more: Vec<Vec<u8>>,
    digest: Seq<u8>,
    i: int,
)
    ensures
        all_agree(Seq::empty(), digest),
        all_agree(hashes.push(more), digest) <==> all_agree(hashes, digest) && more@[0]@ == digest,
        0 <= i < hashes.len() && hashes[i]@[0]@ != digest ==> !all_agree(hashes, digest),
{
    let all = hashes.push(more);
    assert(all[hashes.len() as int] == more);
    assert forall|j: int| 0 <= j < hashes.len() implies all[j] == hashes[j] by {}
    if all_agree(all, digest) {
        assert forall|j: int| 0 <= j < hashes.len() implies (#[trigger] hashes[j])@[0]@ == digest by {
            assert(all[j]@[0]@ == digest);
        }
    }
}

/// Whether two byte strings are equal.
fn same_bytes(a: &Vec<u8>, b: &Vec<u8>) -> (same: bool)
    ensures
        same == (a@ == b@),
{
    if a.len() != b.len() {
        return false;
    }
    let mut i: usize = 0;
    while i < a.len()
        invariant
            a@.len() == b@.len(),
            i <= a@.len(),
            forall|j: int| 0 <= j < i ==> a@[j] == b@[j],
        decreases a@.len() - i,
    {
        if a[i] != b[i] {
            return false;
        }
        i = i + 1;
    }
    assert(a@ =~= b@);
    true
}

impl<S: MpcScheme> ExecutionContext<S> {
    /// The execution of `config` by the party `my_id` of a network of `n_players`.
    pub fn new(config: MpcConfig<S>, n_players: usize, my_id: usize) -> (r: Result<
        Self,
        ExecutionContextError,
    >)
        ensures
            match r {
                Ok(execution) => {
                    &&& config.parties() == n_players
                    &&& config.id() == my_id
                    &&& execution.spec_config() == config
                    &&& execution.state() == ExecutionState::NewBorn
                    &&& execution.wires() == Map::<usize, S::Wire>::empty()
                    &&& execution.context() is None
                    &&& execution.waiting() is None
                    &&& config.well_formed() ==> execution.well_formed()
                },
                Err(error) => {
                    &&& config.parties() != n_players || config.id() != my_id
                    &&& error matches ExecutionContextError::InvalidConfiguration { msg }
                    &&& msg@ == "Mismatch in party ids or counts"@
                },
            },
    {
        if config.n_parties() != n_players {
            return Err(
                ExecutionContextError::InvalidConfiguration {
                    msg: "Mismatch in party ids or counts".to_owned(),
                },
            );
        }
        if config.my_id() != my_id {
            return Err(
                ExecutionContextError::InvalidConfiguration {
                    msg: "Mismatch in party ids or counts".to_owned(),
                },
            );
        }
        let execution = ExecutionContext {
            config,
            execution_state: ExecutionState::NewBorn,
            wire_contents: HashMap::new(),
            scheme_context: None,
            in_flight: None,
            sent: 0,
            received: 0,
        };
        proof {
            lemma_wires_after_none(config);
        }
        Ok(execution)
    }

    /// The state of the execution.
    pub fn execution_state(&self) -> (state: &ExecutionState)
        ensures
            *state == self.state(),
    {
        &self.execution_state
    }

    /// The refusal of a step in the current state.
    fn refuse(&self, op: &str) -> (error: ExecutionContextError)
        ensures
            is_state_error(error, op@, self.state()),
    {
        ExecutionContextError::StateError { op: op.to_owned(), state: self.execution_state }
    }

    /// What goes to and comes from the other parties to agree on the plan, which is given as bytes.
    pub fn begin_handshake(&self, plan: &[u8]) -> (r: Result<Handshake, ExecutionContextError>)
        ensures
            match r {
                Ok(handshake) => {
                    &&& self.state() == ExecutionState::NewBorn
                    &&& handshake.digest@ == sha3_512(plan@)
                    &&& handshake.digest@.len() == 64
                    &&& asks_each(
                        handshake.request@,
                        others(self.spec_config().parties() as nat, self.spec_config().id() as int),
                    )
                },
                Err(error) => {
                    &&& self.state() != ExecutionState::NewBorn
                    &&& is_state_error(error, "handshake"@, self.state())
                },
            },
    {
        self.begin_handshake_with(sha3_512_digest(plan))
    }

    /// What goes to and comes from the other parties to agree on the plan with the given digest.
    pub fn begin_handshake_with(&self, digest: Vec<u8>) -> (r: Result<
        Handshake,
        ExecutionContextError,
    >)
        ensures
            match r {
                Ok(handshake) => {
                    &&& self.state() == ExecutionState::NewBorn
                    &&& handshake.digest == digest
                    &&& asks_each(
                        handshake.request@,
                        others(self.spec_config().parties() as nat, self.spec_config().id() as int),
                    )
                },
                Err(error) => {
                    &&& self.state() != ExecutionState::NewBorn
                    &&& is_state_error(error, "handshake"@, self.state())
                },
            },
    {
        if self.execution_state != ExecutionState::NewBorn {
            return Err(self.refuse("handshake"));
        }
        let parties = other_parties(self.config.n_parties(), self.config.my_id());
        let mut request: Vec<ReceiveRequest<Vec<u8>>> = Vec::new();
        let mut i: usize = 0;
        while i < parties.len()
            invariant
                i <= parties@.len(),
                request@.len() == i,
                forall|j: int|
                    0 <= j < i ==> (#[trigger] request@[j]).from == parties@[j] && request@[j].count
                        == Some(1usize),
            decreases parties@.len() - i,
        {
            request.push(ReceiveRequest::new(parties[i], 1));
            i = i + 1;
        }
        Ok(Handshake { digest, request })
    }

    /// Completes the handshake with what the other parties sent: all of them must have sent the
    /// digest of this party. The scheme then establishes its context.
    pub fn handshake(&mut self, handshake: &Handshake, hashes: Vec<Vec<Vec<u8>>>) -> (r: Result<
        (),
        ExecutionContextError,
    >)
        requires
            forall|i: int| 0 <= i < hashes@.len() ==> (#[trigger] hashes@[i])@.len() > 0,
        ensures
            old(self).state() != ExecutionState::NewBorn ==> {
                &&& r matches Err(error)
                &&& is_state_error(error, "handshake"@, old(self).state())
                &&& *final(self) == *old(self)
            },
            old(self).state() == ExecutionState::NewBorn && !all_agree(hashes@, handshake.digest@)
                ==> {
                &&& r == Err::<(), ExecutionContextError>(ExecutionContextError::PlanNotAgreed)
                &&& *final(self) == *old(self)
            },
            old(self).state() == ExecutionState::NewBorn && all_agree(hashes@, handshake.digest@)
                ==> exists|result: Result<S::Context, S::EstablishContextError>| #[trigger]
                old(self).establishes(result) && match result {
                    Ok(context) => {
                        &&& r is Ok
                        &&& final(self).state() == ExecutionState::Handshaked
                        &&& final(self).context() == Some(context)
                        &&& final(self).spec_config() == old(self).spec_config()
                        &&& final(self).wires() == old(self).wires()
                        &&& final(self).waiting() == old(self).waiting()
                    },
                    Err(reason) => {
                        &&& r matches Err(error)
                        &&& is_scheme_error(error, reason.text())
                        &&& *final(self) == *old(self)
                    },
                },
            r is Ok ==> forall|i: int|
                0 <= i < hashes@.len() ==> (#[trigger] hashes@[i])@[0]@ == handshake.digest@,
            forall|i: int|
                0 <= i < hashes@.len() && (#[trigger] hashes@[i])@[0]@ != handshake.digest@
                    && old(self).state() == ExecutionState::NewBorn ==> r == Err::<
                    (),
                    ExecutionContextError,
                >(ExecutionContextError::PlanNotAgreed),
            r is Ok ==> old(self).state() == ExecutionState::NewBorn && final(self).state()
                == ExecutionState::Handshaked,
            r is Err ==> *final(self) == *old(self),
            old(self).well_formed() ==> final(self).well_formed(),
            old(self).well_formed() && r is Ok ==> final(self).unstarted(),
    {
        if self.execution_state != ExecutionState::NewBorn {
            return Err(self.refuse("handshake"));
        }
        let mut i: usize = 0;
        while i < hashes.len()
            invariant
                *self == *old(self),
                old(self).state() == ExecutionState::NewBorn,
                forall|i: int| 0 <= i < hashes@.len() ==> (#[trigger] hashes@[i])@.len() > 0,
                i <= hashes@.len(),
                forall|j: int| 0 <= j < i ==> (#[trigger] hashes@[j])@[0]@ == handshake.digest@,
            decreases hashes@.len() - i,
        {
            assert(hashes@[i as int]@.len() > 0);
            if !same_bytes(&hashes[i][0], &handshake.digest) {
                return Err(ExecutionContextError::PlanNotAgreed);
            }
            i = i + 1;
        }
        let result = self.config.scheme().establish_context(
            self.config.my_id(),
            self.config.n_parties(),
            self.config.circuit(),
        );
        assert(old(self).establishes(result));
        match result {
            Ok(context) => {
                self.scheme_context = Some(context);
                self.execution_state = ExecutionState::Handshaked;
                proof {
                    lemma_wires_after_none(self.config);
                    lemma_wires_after_grow(self.config, 0, self.end());
                    if old(self).well_formed() {
                        assert(self.wire_contents@.dom() =~= wires_after(self.config, 0));
                    }
                }
                Ok(())
            },
            Err(reason) => {
                let failure = scheme_error(&reason);
                Err(failure)
            },
        }
    }
}

/// Before the first round no wire has a value.
pub(crate) proof fn lemma_wires_after_none<S: MpcScheme>(config: MpcConfig<S>)
    ensures
        wires_after(config, 0) == Set::<usize>::empty(),
{
    assert(all_rounds(config).take(0) =~= Seq::empty());
    assert(outputs_of(run_order(all_rounds(config).take(0))) =~= Seq::empty());
    assert(wires_after(config, 0) =~= Set::empty());
}

/// Values of wires stay.
proof fn lemma_wires_after_grow<S: MpcScheme>(config: MpcConfig<S>, i: int, j: int)
    requires
        0 <= i <= j <= all_rounds(config).len(),
    ensures
        wires_after(config, i).subset_of(wires_after(config, j)),
    decreases j - i,
{
    if i < j {
        lemma_wires_after_grow(config, i, j - 1);
        lemma_wires_after_step(config, j - 1);
    }
}

} // verus!

verus! {

/// A round adds the outputs of its operations.
pub(crate) proof fn lemma_wires_after_step<S: MpcScheme>(config: MpcConfig<S>, k: int)
    requires
        0 <= k < all_rounds(config).len(),
    ensures
        wires_after(config, k + 1) == wires_after(config, k) + ids(
            all_outputs(all_rounds(config)[k].local()),
        ) + ids(all_outputs(all_rounds(config)[k].network())),
{
    let rounds = all_rounds(config);
    let round = rounds[k];
    let before = run_order(rounds.take(k));
    assert(rounds.take(k + 1).drop_last() =~= rounds.take(k));
    assert(rounds.take(k + 1).last() == round);
    lemma_all_outputs_add(before, round.local());
    lemma_all_outputs_add(before + round.local(), round.network());
    lemma_ids_add(all_outputs(before), all_outputs(round.local()));
    lemma_ids_add(
        all_outputs(before) + all_outputs(round.local()),
        all_outputs(round.network()),
    );
}

} // verus!

verus! {

/// The state that follows a phase.
pub open spec fn next_state(state: ExecutionState) -> ExecutionState {
    match state {
        ExecutionState::Handshaked => ExecutionState::FinishedOffline,
        ExecutionState::ReadyOnline => ExecutionState::Finished,
        other => other,
    }
}

/// Whether a phase that has done its first `k` rounds, over which it has sent and received as many
/// bytes as `tally` says, may continue from `before` to `after` with the given result: it finishes
/// where no round is left; else the local operations of the next round run, and its network
/// operations ask for an exchange.
pub open spec fn continues<S: MpcScheme>(
    before: ExecutionContext<S>,
    k: int,
    tally: (int, int),
    after: ExecutionContext<S>,
    result: Result<Step<S>, ExecutionContextError>,
) -> bool {
    let scheme = before.spec_scheme();
    &&& after.spec_config() == before.spec_config()
    &&& if before.base() + k == before.end() {
        &&& result matches Ok(Step::Finished { sent, received })
        &&& (sent as int, received as int) == tally
        &&& after.state() == next_state(before.state())
        &&& after.wires() == before.wires()
        &&& after.context() == before.context()
        &&& after.waiting() is None
    } else {
        let round = all_rounds(before.spec_config())[before.base() + k];
        &&& after.state() == before.state()
        &&& after.tally() == tally
        &&& after.context() is Some
        &&& {
            let from = (before.context().unwrap(), before.wires());
            let to = (after.context().unwrap(), after.wires());
            match result {
                Ok(Step::Finished { .. }) => false,
                Ok(Step::Exchange(exchange)) => {
                    &&& after.waiting() matches Some(flight)
                    &&& flight.0 == k
                    &&& round_outcome(scheme, round, from, to, Ok((flight.1, exchange)))
                },
                Err(error) => {
                    &&& after.waiting() is None
                    &&& round_outcome(scheme, round, from, to, Err(error))
                },
            }
        }
    }
}

/// The local operations of a round produce new wires.
pub(crate) proof fn lemma_outputs_new<S: MpcScheme>(rounds: Seq<Round<S>>, k: int)
    requires
        all_outputs(run_order(rounds)).no_duplicates(),
        0 <= k < rounds.len(),
    ensures
        all_outputs(rounds[k].local()).no_duplicates(),
        forall|w: WireId| #[trigger]
            all_outputs(rounds[k].local()).contains(w) ==> !all_outputs(
                run_order(rounds.take(k)),
            ).contains(w),
{
    let before = run_order(rounds.take(k));
    let have = all_outputs(before);
    let outs = all_outputs(rounds[k].local());
    let rest = all_outputs(rounds[k].network());
    let all = all_outputs(run_order(rounds));
    let m = have.len();
    lemma_run_order_prefix(rounds, k + 1);
    assert(rounds.take(k + 1).drop_last() =~= rounds.take(k));
    lemma_all_outputs_add(before, rounds[k].local());
    lemma_all_outputs_add(before + rounds[k].local(), rounds[k].network());
    let sofar = have + outs + rest;
    assert(all_outputs(run_order(rounds.take(k + 1))) == sofar);
    assert forall|i: int| 0 <= i < sofar.len() implies all[i] == sofar[i] by {
        assert(all.take(sofar.len() as int)[i] == all[i]);
    }
    assert forall|x: int, y: int|
        0 <= x < outs.len() && 0 <= y < outs.len() && x != y implies outs[x] != outs[y] by {
        assert(sofar[m + x] == outs[x]);
        assert(sofar[m + y] == outs[y]);
        assert(all[m + x] != all[m + y]);
    }
    assert forall|w: WireId| #[trigger] outs.contains(w) implies !have.contains(w) by {
        if have.contains(w) {
            let x = have.index_of(w);
            let y = outs.index_of(w);
            assert(sofar[x] == w);
            assert(sofar[m + y] == w);
            assert(all[x] != all[m + y]);
        }
    }
}

/// A round that comes next finds its wires, and its outputs are new.
pub(crate) proof fn lemma_round_feasible<S: MpcScheme>(config: MpcConfig<S>, k: int, values: Map<usize, S::Wire>)
    requires
        config.well_formed(),
        0 <= k < all_rounds(config).len(),
        wires_after(config, k).subset_of(values.dom()),
    ensures
        feasible(all_rounds(config)[k].local(), values),
        network_feasible(all_rounds(config)[k], values),
{
    let rounds = all_rounds(config);
    let have = all_outputs(run_order(rounds.take(k)));
    let outs = all_outputs(rounds[k].local());
    assert(round_ready(have, rounds[k]));
    lemma_outputs_new(rounds, k);
    assert forall|j: int, w: WireId|
        0 <= j < rounds[k].local().len() && #[trigger] rounds[k].local()[j].input_wires().contains(
            w,
        ) implies values.contains_key(w.0) || all_outputs(rounds[k].local().take(j)).contains(w) by {
        assert(w == WireId(w.0));
        assert(ids(have).contains(w.0) == have.contains(w));
    }
    assert forall|j: int, w: WireId|
        0 <= j < rounds[k].network().len() && #[trigger] rounds[k].network()[j].input_wires().contains(
            w,
        ) implies values.contains_key(w.0) || outs.contains(w) by {
        assert(w == WireId(w.0));
        assert(ids(have).contains(w.0) == have.contains(w));
    }
}

/// The outputs of the first rounds are the first outputs.
pub(crate) proof fn lemma_run_order_prefix<S: MpcScheme>(rounds: Seq<Round<S>>, k: int)
    requires
        0 <= k <= rounds.len(),
    ensures
        all_outputs(run_order(rounds.take(k))).len() <= all_outputs(run_order(rounds)).len(),
        all_outputs(run_order(rounds)).take(all_outputs(run_order(rounds.take(k))).len() as int)
            == all_outputs(run_order(rounds.take(k))),
    decreases rounds.len(),
{
    let all = all_outputs(run_order(rounds));
    let part = all_outputs(run_order(rounds.take(k)));
    if k == rounds.len() {
        assert(rounds.take(k) =~= rounds);
        assert(all.take(all.len() as int) =~= all);
    } else {
        let rest = rounds.drop_last();
        lemma_run_order_prefix(rest, k);
        assert(rest.take(k) =~= rounds.take(k));
        lemma_all_outputs_add(run_order(rest), rounds.last().local());
        lemma_all_outputs_add(run_order(rest) + rounds.last().local(), rounds.last().network());
        assert(all.take(part.len() as int) =~= all_outputs(run_order(rest)).take(part.len() as int));
    }
}

} // verus!

verus! {

impl<S: MpcScheme> ExecutionContext<S> {
    /// Whether the wires of the first `k` rounds of the current phase have values.
    closed spec fn reached(&self, k: int) -> bool {
        &&& self.config.well_formed()
        &&& self.execution_state == ExecutionState::Handshaked || self.execution_state
            == ExecutionState::ReadyOnline
        &&& self.scheme_context is Some
        &&& 0 <= k
        &&& self.base() + k <= self.end()
        &&& wires_after(self.config, self.base() + k).subset_of(self.wire_contents@.dom())
        &&& self.wire_contents@.dom().subset_of(wires_after(self.config, self.end()))
    }

    /// Continues a phase that has done its first `k` rounds.
    #[verifier::spinoff_prover]
    fn run_round(&mut self, k: usize) -> (r: Result<Step<S>, ExecutionContextError>)
        requires
            old(self).reached(k as int),
        ensures
            continues(*old(self), k as int, old(self).tally(), *final(self), r),
            final(self).well_formed(),
    {
        let ghost before = *self;
        let ghost config = self.config;
        let ghost base = self.base();
        let ghost at = base + k;
        let online = self.execution_state == ExecutionState::ReadyOnline;
        let rounds = if online {
            self.config.circuit().online_rounds()
        } else {
            self.config.circuit().offline_rounds()
        };
        self.in_flight = None;
        if k >= rounds.len() {
            self.execution_state = if online {
                ExecutionState::Finished
            } else {
                ExecutionState::FinishedOffline
            };
            return Ok(Step::Finished { sent: self.sent, received: self.received });
        }
        let round = &rounds[k];
        proof {
            assert(*round == all_rounds(config)[at]);
            lemma_round_feasible(config, at, self.wire_contents@);
            lemma_wires_after_step(config, at);
            lemma_wires_after_grow(config, base, at);
            lemma_wires_after_grow(config, at + 1, self.end());
        }
        let scheme = self.config.circuit().scheme();
        let mut context = self.scheme_context.take().unwrap();
        let started = start_round(scheme, &mut context, &mut self.wire_contents, round);
        self.scheme_context = Some(context);
        match started {
            Ok((pending, exchange)) => {
                proof {
                    lemma_started_is_issued(
                        *scheme,
                        *round,
                        (before.context().unwrap(), before.wires()),
                        (context, self.wire_contents@),
                        pending,
                        exchange,
                    );
                }
                self.in_flight = Some((k, pending));
                Ok(Step::Exchange(exchange))
            },
            Err(error) => Err(error),
        }
    }
}

pub(crate) proof fn lemma_started_is_issued<S: MpcScheme>(
    scheme: S,
    round: Round<S>,
    before: (S::Context, Map<usize, S::Wire>),
    after: (S::Context, Map<usize, S::Wire>),
    pending: PendingRound<S>,
    exchange: Exchange<S>,
)
    requires
        round_outcome(scheme, round, before, after, Ok((pending, exchange))),
    ensures
        issued(scheme, round.network(), pending),
{
    let ops = round.network();
    let values = after.1;
    let middle = choose|context: S::Context| #[trigger]
        local_run(scheme, round.local(), before, (context, after.1)) && network_start(
            scheme,
            round.network(),
            after.1,
            context,
            after.0,
            pending,
            exchange,
        );
    let (contexts, outputs) = choose|
        contexts: Seq<S::Context>,
        outputs: Seq<NetworkPhaseOutput<S>>,
    |
        {
            &&& #[trigger] network_trace(scheme, ops, values, contexts, outputs)
            &&& contexts[0] == middle
            &&& contexts.last() == after.0
            &&& pending.holds(outputs)
            &&& exchange.carries(outputs)
        };
    assert forall|k: int| 0 <= k < ops.len() implies issued_by(
        scheme,
        #[trigger] ops[k],
        pending.pending@[k],
    ) by {
        assert(scheme.network_phase(
            contexts[k],
            ops[k],
            gather(values, ops[k].input_wires()),
            contexts[k + 1],
            Ok(outputs[k]),
        ));
    }
}

} // verus!

verus! {

/// Whether the network operations of the waiting round may be finalized with `results`, and their
/// outputs stored, which takes the execution from `before` to `after`.
pub open spec fn completes<S: MpcScheme>(
    before: ExecutionContext<S>,
    data: Seq<Vec<S::NetworkElement>>,
    results: Seq<FinalizePhaseOutput<S>>,
    after: ExecutionContext<S>,
) -> bool {
    let flight = before.waiting().unwrap();
    let round = all_rounds(before.spec_config())[before.base() + flight.0];
    &&& after.spec_config() == before.spec_config()
    &&& after.state() == before.state()
    &&& after.waiting() is None
    &&& after.context() is Some
    &&& finalized(
        before.spec_scheme(),
        flight.1,
        data,
        before.context().unwrap(),
        after.context().unwrap(),
        results,
    )
    &&& free(before.wires(), all_outputs(round.network()))
    &&& after.wires() == store_all(before.wires(), round.network(), results)
}

/// Whether the network operations of the waiting round may be finalized, but one of their outputs
/// has a value already, which leaves the execution at `after`.
pub open spec fn collides<S: MpcScheme>(
    before: ExecutionContext<S>,
    data: Seq<Vec<S::NetworkElement>>,
    after: ExecutionContext<S>,
) -> bool {
    let flight = before.waiting().unwrap();
    let round = all_rounds(before.spec_config())[before.base() + flight.0];
    &&& !free(before.wires(), all_outputs(round.network()))
    &&& exists|results: Seq<FinalizePhaseOutput<S>>| #[trigger]
        finalized(
            before.spec_scheme(),
            flight.1,
            data,
            before.context().unwrap(),
            after.context().unwrap(),
            results,
        )
}

/// Whether a phase may resume from `before` to `after` by way of `middle`: the network operations
/// of the waiting round are finalized with `results`, and the phase continues with as many bytes
/// more.
pub open spec fn passes<S: MpcScheme>(
    before: ExecutionContext<S>,
    data: Seq<Vec<S::NetworkElement>>,
    lens: (SendLen, RecvLen),
    middle: ExecutionContext<S>,
    results: Seq<FinalizePhaseOutput<S>>,
    after: ExecutionContext<S>,
    result: Result<Step<S>, ExecutionContextError>,
) -> bool {
    &&& completes(before, data, results, middle)
    &&& continues(
        middle,
        before.waiting().unwrap().0 + 1,
        (before.tally().0 + lens.0, before.tally().1 + lens.1),
        after,
        result,
    )
}

/// Whether a phase may resume from `before` to `after` with the given result, where the exchange
/// of its waiting round brought `data` and took as many bytes.
pub open spec fn resumes<S: MpcScheme>(
    before: ExecutionContext<S>,
    data: Seq<Vec<S::NetworkElement>>,
    lens: (SendLen, RecvLen),
    after: ExecutionContext<S>,
    result: Result<Step<S>, ExecutionContextError>,
) -> bool {
    exists|middle: ExecutionContext<S>, results: Seq<FinalizePhaseOutput<S>>| #[trigger]
        passes(before, data, lens, middle, results, after, result)
}

/// The operations that were issued are finalized with as many values as they have outputs.
pub(crate) proof fn lemma_results_fit<S: MpcScheme>(
    scheme: S,
    ops: Seq<S::Operation>,
    round: PendingRound<S>,
    data: Seq<Vec<S::NetworkElement>>,
    before: S::Context,
    after: S::Context,
    results: Seq<FinalizePhaseOutput<S>>,
)
    requires
        issued(scheme, ops, round),
        finalized(scheme, round, data, before, after, results),
    ensures
        fitting(ops, results),
{
    let contexts = choose|contexts: Seq<S::Context>|
        {
            &&& #[trigger] finalize_trace(scheme, round, data, contexts, results)
            &&& contexts[0] == before
            &&& contexts.last() == after
        };
    assert forall|k: int| 0 <= k < ops.len() implies (#[trigger] ops[k]).output_wires().len()
        == results[k].0@.len() by {
        assert(issued_by(scheme, ops[k], round.pending@[k]));
        let (b, inputs, a, output) = choose|
            before: S::Context,
            inputs: Seq<S::Wire>,
            after: S::Context,
            output: NetworkPhaseOutput<S>,
        | #[trigger]
            scheme.network_phase(before, ops[k], inputs, after, Ok(output)) && output.pending
                == round.pending@[k];
        scheme.outputs_are_consistent(
            ops[k],
            inputs,
            output,
            data_for(round.counts@, data, k),
            results[k],
            (b, a, contexts[k], contexts[k + 1]),
        );
    }
}

impl<S: MpcScheme> ExecutionContext<S> {
    /// Whether the bytes of a further exchange can still be counted.
    pub fn can_count(&self, sent: SendLen, received: RecvLen) -> (b: bool)
        ensures
            b == (self.tally().0 + sent <= usize::MAX && self.tally().1 + received <= usize::MAX),
    {
        sent <= usize::MAX - self.sent && received <= usize::MAX - self.received
    }

    /// Starts the offline phase. A phase that has failed half done starts from its first round again,
    /// and fails where an output has a value already.
    pub fn do_offline(&mut self) -> (r: Result<Step<S>, ExecutionContextError>)
        requires
            old(self).state() == ExecutionState::Handshaked ==> old(self).well_formed(),
        ensures
            old(self).well_formed() ==> final(self).well_formed(),
            if old(self).state() != ExecutionState::Handshaked {
                &&& r matches Err(error)
                &&& is_state_error(error, "do_offline"@, old(self).state())
                &&& *final(self) == *old(self)
            } else {
                continues(*old(self), 0, (0, 0), *final(self), r)
            },
    {
        if self.execution_state != ExecutionState::Handshaked {
            return Err(self.refuse("do_offline"));
        }
        self.sent = 0;
        self.received = 0;
        self.run_round(0)
    }

    /// Starts the online phase. A phase that has failed half done starts from its first round again,
    /// and fails where an output has a value already.
    pub fn do_online(&mut self) -> (r: Result<Step<S>, ExecutionContextError>)
        requires
            old(self).state() == ExecutionState::ReadyOnline ==> old(self).well_formed(),
        ensures
            old(self).well_formed() ==> final(self).well_formed(),
            if old(self).state() != ExecutionState::ReadyOnline {
                &&& r matches Err(error)
                &&& is_state_error(error, "do_online"@, old(self).state())
                &&& *final(self) == *old(self)
            } else {
                continues(*old(self), 0, (0, 0), *final(self), r)
            },
    {
        if self.execution_state != ExecutionState::ReadyOnline {
            return Err(self.refuse("do_online"));
        }
        self.sent = 0;
        self.received = 0;
        self.run_round(0)
    }

    /// Continues the current phase with what the exchange of its waiting round brought, and how
    /// many bytes it sent and received.
    #[verifier::spinoff_prover]
    pub fn resume(
        &mut self,
        data: Vec<Vec<S::NetworkElement>>,
        sent: SendLen,
        received: RecvLen,
    ) -> (r: Result<Step<S>, ExecutionContextError>)
        requires
            old(self).tally().0 + sent <= usize::MAX,
            old(self).tally().1 + received <= usize::MAX,
            old(self).well_formed(),
            old(self).waiting() is Some,
            old(self).waiting().unwrap().1.accepts(old(self).spec_scheme(), data@),
        ensures
            final(self).well_formed(),
            ({
                let flight = old(self).waiting().unwrap();
                ||| {
                    &&& r matches Err(error)
                    &&& final(self).spec_config() == old(self).spec_config()
                    &&& final(self).state() == old(self).state()
                    &&& final(self).wires() == old(self).wires()
                    &&& final(self).waiting() is None
                    &&& final(self).context() is Some
                    &&& {
                        ||| finalize_stop(
                            old(self).spec_scheme(),
                            flight.1,
                            data@,
                            old(self).context().unwrap(),
                            final(self).context().unwrap(),
                            error,
                        )
                        ||| collides(*old(self), data@, *final(self)) && is_scheme_error(
                            error,
                            assigned_twice(),
                        )
                    }
                }
                ||| resumes(*old(self), data@, (sent, received), *final(self), r)
            }),
    {
        let ghost before = *self;
        let ghost config = self.config;
        let (k, pending) = self.in_flight.take().unwrap();
        let ghost at = self.base() + k;
        let ghost waiting = pending;
        let ghost all = data@;
        let online = self.execution_state == ExecutionState::ReadyOnline;
        let scheme = self.config.circuit().scheme();
        let mut context = self.scheme_context.take().unwrap();
        let finished = finish_network_operations(scheme, &mut context, pending, data);
        let ghost reached = context;
        self.scheme_context = Some(context);
        let results = match finished {
            Ok(results) => results,
            Err(error) => return Err(error),
        };
        let ghost res = results@;
        let rounds = if online {
            self.config.circuit().online_rounds()
        } else {
            self.config.circuit().offline_rounds()
        };
        proof {
            assert(rounds@[k as int] == all_rounds(config)[at]);
            lemma_results_fit(
                *scheme,
                all_rounds(config)[at].network(),
                waiting,
                all,
                before.context().unwrap(),
                reached,
                res,
            );
            lemma_store_all_domain(before.wires(), all_rounds(config)[at].network(), res);
            lemma_wires_after_step(config, at);
            lemma_wires_after_grow(config, at + 1, self.end());
        }
        if !outputs_free(&self.wire_contents, rounds[k].network_operations()) {
            assert(finalized(
                before.spec_scheme(),
                waiting,
                all,
                before.context().unwrap(),
                reached,
                res,
            ));
            return Err(assigned_twice_error());
        }
        store_outputs(&mut self.wire_contents, rounds[k].network_operations(), results);
        self.sent = self.sent + sent;
        self.received = self.received + received;
        let ghost middle = *self;
        let r = self.run_round(k + 1);
        assert(passes(before, all, (sent, received), middle, res, *self, r));
        r
    }

    /// The value of a wire, if it has one.
    pub fn get_wire(&self, id: WireId) -> (value: Option<&S::Wire>)
        ensures
            value == (if self.wires().contains_key(id.0) {
                Some(&self.wires()[id.0])
            } else {
                None
            }),
    {
        self.wire_contents.get(&id.0)
    }
}

} // verus!

verus! {

/// What answers the exchange that a phase asks for lets the phase resume.
pub proof fn law_answered_exchange_resumes<S: MpcScheme>(
    before: ExecutionContext<S>,
    k: int,
    tally: (int, int),
    after: ExecutionContext<S>,
    exchange: Exchange<S>,
    data: Seq<Vec<S::NetworkElement>>,
)
    requires
        continues(before, k, tally, after, Ok(Step::Exchange(exchange))),
        answers(exchange.receive@, contents(data)),
    ensures
        after.waiting() is Some,
        after.waiting().unwrap().1.accepts(after.spec_scheme(), data),
{
    let round = all_rounds(before.spec_config())[before.base() + k];
    let scheme = before.spec_scheme();
    let from = (before.context().unwrap(), before.wires());
    let to = (after.context().unwrap(), after.wires());
    let pending = after.waiting().unwrap().1;
    let middle = choose|context: S::Context| #[trigger]
        local_run(scheme, round.local(), from, (context, to.1)) && network_start(
            scheme,
            round.network(),
            to.1,
            context,
            to.0,
            pending,
            exchange,
        );
    law_answers_are_accepted(
        scheme,
        round.network(),
        to.1,
        middle,
        to.0,
        pending,
        exchange,
        data,
    );
}

/// The wires that a user gives inputs for.
pub open spec fn given<I>(inputs: Seq<(WireId, I)>) -> Seq<WireId> {
    Seq::new(inputs.len(), |i: int| inputs[i].0)
}

/// Whether the wires before `k` are among `own`, each of them once.
pub open spec fn admissible(wires: Seq<WireId>, own: Seq<WireId>, k: int) -> bool {
    &&& wires.take(k).no_duplicates()
    &&& forall|i: int| 0 <= i < k ==> own.contains(#[trigger] wires[i])
}

/// Whether `wire` is the first one that is given again.
pub open spec fn given_twice(wires: Seq<WireId>, own: Seq<WireId>, wire: WireId) -> bool {
    exists|k: int|
        0 <= k < wires.len() && #[trigger] wires[k] == wire && admissible(wires, own, k)
            && own.contains(wire) && wires.take(k).contains(wire)
}

/// Whether `wire` is the first one that is given though it is not among `own`.
pub open spec fn given_wrongly(wires: Seq<WireId>, own: Seq<WireId>, wire: WireId) -> bool {
    exists|k: int|
        0 <= k < wires.len() && #[trigger] wires[k] == wire && admissible(wires, own, k)
            && !own.contains(wire)
}

/// The outcome of an attempt to hand in inputs for `wires`, where `own` are to be given.
pub open spec fn inputs_outcome(
    wires: Seq<WireId>,
    own: Seq<WireId>,
    result: Result<(), ExecutionContextError>,
) -> bool {
    match result {
        Ok(_) => admissible(wires, own, wires.len() as int) && ids(wires) == ids(own),
        Err(ExecutionContextError::DuplicateInput { wire }) => given_twice(wires, own, wire),
        Err(ExecutionContextError::InvalidInputWire { wire }) => given_wrongly(wires, own, wire),
        Err(ExecutionContextError::NotEnoughInputs) => admissible(
            wires,
            own,
            wires.len() as int,
        ) && ids(wires) != ids(own),
        Err(_) => false,
    }
}

/// The wires as keys, none of which is used yet.
fn unused(wires: &Vec<WireId>) -> (used: HashMap<usize, bool>)
    ensures
        used@.dom() == ids(wires@),
        forall|w: usize| #[trigger] used@.contains_key(w) ==> !used@[w],
{
    let mut used: HashMap<usize, bool> = HashMap::new();
    let mut i: usize = 0;
    assert(used@.dom() =~= ids(wires@.take(0)));
    while i < wires.len()
        invariant
            i <= wires@.len(),
            used@.dom() == ids(wires@.take(i as int)),
            forall|w: usize| #[trigger] used@.contains_key(w) ==> !used@[w],
        decreases wires@.len() - i,
    {
        used.insert(wires[i].0, false);
        proof {
            let wire = wires@[i as int];
            assert(wire == WireId(wire.0));
            assert(wires@.take(i + 1) =~= wires@.take(i as int) + seq![wire]);
            lemma_ids_add(wires@.take(i as int), seq![wire]);
            assert(seq![wire][0] == wire);
            assert(ids(seq![wire]) =~= set![wire.0]) by {
                assert forall|w: usize| ids(seq![wire]).contains(w) implies w == wire.0 by {
                    let j = seq![wire].index_of(WireId(w));
                }
            }
            assert(used@.dom() =~= ids(wires@.take(i + 1)));
        }
        i = i + 1;
    }
    assert(wires@.take(i as int) =~= wires@);
    used
}

/// Checks that exactly the wires `own` are given, each of them once.
pub fn check_inputs<I>(own: &Vec<WireId>, inputs: &Vec<(WireId, I)>) -> (r: Result<
    (),
    ExecutionContextError,
>)
    ensures
        inputs_outcome(given(inputs@), own@, r),
        r is Ok <==> {
            &&& forall|i: int, j: int| 0 <= i < j < inputs@.len() ==> inputs@[i].0 != inputs@[j].0
            &&& forall|i: int| 0 <= i < inputs@.len() ==> own@.contains((#[trigger] inputs@[i]).0)
            &&& forall|w: WireId| #[trigger] own@.contains(w) ==> (exists|i: int|
                    0 <= i < inputs@.len() && (#[trigger] inputs@[i]).0 == w)
        },
        r matches Err(ExecutionContextError::InvalidInputWire { wire }) ==> (exists|i: int|
                0 <= i < inputs@.len() && (#[trigger] inputs@[i]).0 == wire)
            && !own@.contains(wire),
        r matches Err(ExecutionContextError::DuplicateInput { wire }) ==> own@.contains(wire)
            && (exists|i: int, j: int|
                    0 <= i < j < inputs@.len() && (#[trigger] inputs@[i]).0 == wire
                        && (#[trigger] inputs@[j]).0 == wire),
        r is Err ==> {
            ||| r->Err_0 is InvalidInputWire
            ||| r->Err_0 is DuplicateInput
            ||| r->Err_0 is NotEnoughInputs
        },
{
    let r = check_each_input(own, inputs);
    proof {
        law_inputs_are_accepted_in_any_order(inputs@, own@, r);
    }
    r
}

/// Inputs are accepted, in whatever order they come, exactly where they give each of the own wires
/// once and no other wire. A wire is refused as invalid only if it is given and not an own one, and
/// as a duplicate only if it is an own one that is given again.
pub proof fn law_inputs_are_accepted_in_any_order<I>(
    inputs: Seq<(WireId, I)>,
    own: Seq<WireId>,
    r: Result<(), ExecutionContextError>,
)
    requires
        inputs_outcome(given(inputs), own, r),
    ensures
        r is Ok <==> {
            &&& forall|i: int, j: int| 0 <= i < j < inputs.len() ==> inputs[i].0 != inputs[j].0
            &&& forall|i: int| 0 <= i < inputs.len() ==> own.contains((#[trigger] inputs[i]).0)
            &&& forall|w: WireId| #[trigger] own.contains(w) ==> (exists|i: int|
                    0 <= i < inputs.len() && (#[trigger] inputs[i]).0 == w)
        },
        r matches Err(ExecutionContextError::InvalidInputWire { wire }) ==> (exists|i: int|
                0 <= i < inputs.len() && (#[trigger] inputs[i]).0 == wire)
            && !own.contains(wire),
        r matches Err(ExecutionContextError::DuplicateInput { wire }) ==> own.contains(wire)
            && (exists|i: int, j: int|
                    0 <= i < j < inputs.len() && (#[trigger] inputs[i]).0 == wire
                        && (#[trigger] inputs[j]).0 == wire),
        r matches Err(ExecutionContextError::NotEnoughInputs) ==> exists|w: WireId|
            #[trigger] own.contains(w) && !(exists|i: int|
                    0 <= i < inputs.len() && (#[trigger] inputs[i]).0 == w),
        r is Err ==> {
            ||| r->Err_0 is InvalidInputWire
            ||| r->Err_0 is DuplicateInput
            ||| r->Err_0 is NotEnoughInputs
        },
{
    let wires = given(inputs);
    assert(wires.take(wires.len() as int) =~= wires);
    assert forall|w: WireId| #[trigger] wires.contains(w) <==> (exists|i: int|
            0 <= i < inputs.len() && (#[trigger] inputs[i]).0 == w) by {
        if wires.contains(w) {
            assert(inputs[wires.index_of(w)].0 == w);
        }
        if (exists|i: int| 0 <= i < inputs.len() && (#[trigger] inputs[i]).0 == w) {
            let i = choose|i: int| 0 <= i < inputs.len() && (#[trigger] inputs[i]).0 == w;
            assert(wires[i] == w);
        }
    }
    assert forall|w: usize| ids(wires).contains(w) <==> (exists|i: int|
            0 <= i < inputs.len() && (#[trigger] inputs[i]).0 == WireId(w)) by {
        assert(wires.contains(WireId(w)) <==> (exists|i: int|
                0 <= i < inputs.len() && (#[trigger] inputs[i]).0 == WireId(w)));
    }
    match r {
        Ok(_) => {
            assert forall|i: int, j: int| 0 <= i < j < inputs.len() implies inputs[i].0
                != inputs[j].0 by {
                assert(wires[i] != wires[j]);
            }
            assert forall|i: int| 0 <= i < inputs.len() implies own.contains(
                (#[trigger] inputs[i]).0,
            ) by {
                assert(own.contains(wires[i]));
            }
            assert forall|w: WireId| #[trigger] own.contains(w) implies (exists|i: int|
                    0 <= i < inputs.len() && (#[trigger] inputs[i]).0 == w) by {
                assert(w == WireId(w.0));
                assert(ids(own).contains(w.0));
            }
        },
        Err(ExecutionContextError::DuplicateInput { wire }) => {
            let k = choose|k: int|
                0 <= k < wires.len() && #[trigger] wires[k] == wire && admissible(wires, own, k)
                    && own.contains(wire) && wires.take(k).contains(wire);
            let i = wires.take(k).index_of(wire);
            assert(inputs[i].0 == wire && inputs[k].0 == wire);
        },
        Err(ExecutionContextError::InvalidInputWire { wire }) => {
            let k = choose|k: int|
                0 <= k < wires.len() && #[trigger] wires[k] == wire && admissible(wires, own, k)
                    && !own.contains(wire);
            assert(inputs[k].0 == wire);
        },
        Err(ExecutionContextError::NotEnoughInputs) => {
            if forall|w: WireId| #[trigger] own.contains(w) ==> (exists|i: int|
                    0 <= i < inputs.len() && (#[trigger] inputs[i]).0 == w) {
                assert forall|w: usize| ids(wires).contains(w) <==> ids(own).contains(w) by {
                    if ids(wires).contains(w) {
                        let i = wires.index_of(WireId(w));
                        assert(own.contains(wires[i]));
                    }
                    if own.contains(WireId(w)) {
                        assert((exists|i: int|
                                0 <= i < inputs.len() && (#[trigger] inputs[i]).0 == WireId(w)));
                    }
                }
                assert(ids(wires) =~= ids(own));
            }
        },
        Err(_) => {},
    }
}

/// The first input that is not for an own wire, or for one that was given before, is reported; and
/// one is missing only where there is no such input.
pub proof fn law_first_offending_input_is_reported<I>(
    inputs: Seq<(WireId, I)>,
    own: Seq<WireId>,
    error: ExecutionContextError,
)
    requires
        inputs_outcome(given(inputs), own, Err(error)),
    ensures
        exists|k: int|
            #![trigger inputs.take(k)]
            0 <= k <= inputs.len() && (forall|i: int|
                0 <= i < k ==> own.contains((#[trigger] inputs[i]).0)) && (forall|i: int, j: int|
                0 <= i < j < k ==> (#[trigger] inputs[i]).0 != (#[trigger] inputs[j]).0) && match error {
                ExecutionContextError::InvalidInputWire { wire } => k < inputs.len()
                    && inputs[k].0 == wire && !own.contains(wire),
                ExecutionContextError::DuplicateInput { wire } => k < inputs.len() && inputs[k].0
                    == wire && exists|i: int| 0 <= i < k && (#[trigger] inputs[i]).0 == wire,
                ExecutionContextError::NotEnoughInputs => k == inputs.len(),
                _ => false,
            },
{
    let wires = given(inputs);
    let k = match error {
        ExecutionContextError::InvalidInputWire { wire } => choose|k: int|
            0 <= k < wires.len() && #[trigger] wires[k] == wire && admissible(wires, own, k)
                && !own.contains(wire),
        ExecutionContextError::DuplicateInput { wire } => choose|k: int|
            0 <= k < wires.len() && #[trigger] wires[k] == wire && admissible(wires, own, k)
                && own.contains(wire) && wires.take(k).contains(wire),
        _ => wires.len() as int,
    };
    assert(admissible(wires, own, k));
    assert forall|i: int| 0 <= i < k implies own.contains((#[trigger] inputs[i]).0) by {
        assert(own.contains(wires[i]));
    }
    assert forall|i: int, j: int| 0 <= i < j < k implies (#[trigger] inputs[i]).0 != (
    #[trigger] inputs[j]).0 by {
        assert(wires.take(k)[i] != wires.take(k)[j]);
    }
    if let ExecutionContextError::DuplicateInput { wire } = error {
        let i = wires.take(k).index_of(wire);
        assert(inputs[i].0 == wire);
    }
    assert(inputs.take(k) == inputs.take(k));
}

/// Inputs that come in another order are accepted where they were.
pub proof fn law_order_of_inputs_does_not_matter<I>(
    inputs: Seq<(WireId, I)>,
    others: Seq<(WireId, I)>,
    own: Seq<WireId>,
    r: Result<(), ExecutionContextError>,
    s: Result<(), ExecutionContextError>,
)
    requires
        inputs.to_multiset() == others.to_multiset(),
        inputs_outcome(given(inputs), own, r),
        inputs_outcome(given(others), own, s),
    ensures
        r is Ok <==> s is Ok,
{
    if r is Ok {
        lemma_reordered(inputs, others, own, r, s);
    }
    if s is Ok {
        lemma_reordered(others, inputs, own, s, r);
    }
}

proof fn lemma_reordered<I>(
    inputs: Seq<(WireId, I)>,
    others: Seq<(WireId, I)>,
    own: Seq<WireId>,
    r: Result<(), ExecutionContextError>,
    s: Result<(), ExecutionContextError>,
)
    requires
        inputs.to_multiset() == others.to_multiset(),
        inputs_outcome(given(inputs), own, r),
        inputs_outcome(given(others), own, s),
        r is Ok,
    ensures
        s is Ok,
{
    broadcast use vstd::seq_lib::group_to_multiset_ensures;

    law_inputs_are_accepted_in_any_order(inputs, own, r);
    law_inputs_are_accepted_in_any_order(others, own, s);
    assert forall|x: (WireId, I)| others.contains(x) == inputs.contains(x) by {
        assert(others.contains(x) == (others.to_multiset().count(x) > 0));
        assert(inputs.contains(x) == (inputs.to_multiset().count(x) > 0));
    }
    assert(inputs.no_duplicates());
    inputs.lemma_multiset_has_no_duplicates();
    others.lemma_multiset_has_no_duplicates_conv();
    assert forall|i: int, j: int| 0 <= i < j < others.len() implies others[i].0 != others[j].0 by {
        assert(inputs.contains(others[i]) && inputs.contains(others[j]));
        let a = inputs.index_of(others[i]);
        let b = inputs.index_of(others[j]);
        assert(others[i] != others[j]);
        assert(a != b);
        if a < b {
            assert(inputs[a].0 != inputs[b].0);
        } else {
            assert(inputs[b].0 != inputs[a].0);
        }
    }
    assert forall|i: int| 0 <= i < others.len() implies own.contains((#[trigger] others[i]).0) by {
        assert(inputs.contains(others[i]));
        let a = inputs.index_of(others[i]);
        assert(own.contains(inputs[a].0));
    }
    assert forall|w: WireId| #[trigger] own.contains(w) implies (exists|i: int|
            0 <= i < others.len() && (#[trigger] others[i]).0 == w) by {
        assert((exists|i: int| 0 <= i < inputs.len() && (#[trigger] inputs[i]).0 == w));
        let a = choose|a: int| 0 <= a < inputs.len() && (#[trigger] inputs[a]).0 == w;
        assert(others.contains(inputs[a]));
        let b = others.index_of(inputs[a]);
        assert(others[b].0 == w);
    }
}

/// Checks the wires of the inputs one after the other.
fn check_each_input<I>(own: &Vec<WireId>, inputs: &Vec<(WireId, I)>) -> (r: Result<
    (),
    ExecutionContextError,
>)
    ensures
        inputs_outcome(given(inputs@), own@, r),
{
    let ghost wires = given(inputs@);
    let mut used = unused(own);
    let mut i: usize = 0;
    assert(wires.take(0) =~= Seq::empty());
    while i < inputs.len()
        invariant
            wires == given(inputs@),
            i <= inputs@.len(),
            used@.dom() == ids(own@),
            forall|w: usize| #[trigger]
                used@.contains_key(w) ==> used@[w] == wires.take(i as int).contains(WireId(w)),
            admissible(wires, own@, i as int),
        decreases inputs@.len() - i,
    {
        let wire = inputs[i].0;
        proof {
            assert(wires[i as int] == wire);
            assert(wire == WireId(wire.0));
            assert(ids(own@).contains(wire.0) == own@.contains(wire));
            assert(wires.take(i + 1) =~= wires.take(i as int).push(wire));
        }
        let seen = match used.get(&wire.0) {
            Some(seen) => *seen,
            None => {
                return Err(ExecutionContextError::InvalidInputWire { wire });
            },
        };
        if seen {
            return Err(ExecutionContextError::DuplicateInput { wire });
        }
        used.insert(wire.0, true);
        proof {
            assert(used@.dom() =~= ids(own@));
            let before = wires.take(i as int);
            assert forall|w: usize| #[trigger] used@.contains_key(w) implies used@[w] == before.push(
                wire,
            ).contains(WireId(w)) by {
                if before.contains(WireId(w)) {
                    assert(before.push(wire)[before.index_of(WireId(w))] == WireId(w));
                }
                assert(before.push(wire)[before.len() as int] == wire);
            }
        }
        i = i + 1;
    }
    proof {
        assert(wires.take(i as int) =~= wires);
        lemma_ids_len(wires);
        assert(ids(wires).subset_of(ids(own@)));
        assert(used@.dom().finite());
        if ids(wires).len() == ids(own@).len() {
            vstd::set_lib::lemma_subset_equality(ids(wires), ids(own@));
        }
        vstd::set_lib::lemma_len_subset(ids(wires), ids(own@));
    }
    if inputs.len() < used.len() {
        return Err(ExecutionContextError::NotEnoughInputs);
    }
    Ok(())
}

/// Distinct wires have as many identifiers.
proof fn lemma_ids_len(wires: Seq<WireId>)
    requires
        wires.no_duplicates(),
    ensures
        ids(wires).finite(),
        ids(wires).len() == wires.len(),
    decreases wires.len(),
{
    if wires.len() == 0 {
        assert(ids(wires) =~= Set::empty());
    } else {
        let rest = wires.drop_last();
        let last = wires.last();
        lemma_ids_len(rest);
        assert(last == WireId(last.0));
        assert(wires[wires.len() - 1] == last);
        assert forall|w: usize| ids(wires).contains(w) <==> ids(rest).insert(last.0).contains(w) by {
            if wires.contains(WireId(w)) {
                let i = wires.index_of(WireId(w));
                if i < rest.len() {
                    assert(rest[i] == WireId(w));
                }
            }
            if rest.contains(WireId(w)) {
                assert(wires[rest.index_of(WireId(w))] == WireId(w));
            }
        }
        assert(ids(wires) =~= ids(rest).insert(last.0));
        if ids(rest).contains(last.0) {
            let i = rest.index_of(last);
            assert(wires[i] == last);
        }
    }
}

impl<S: MpcScheme> ExecutionContext<S> {
    /// Accepts the inputs of the user: one for each input operation of this party.
    pub fn prepare_input(&mut self, user_inputs: Vec<(WireId, S::Input)>) -> (r: Result<
        (),
        ExecutionContextError,
    >)
        requires
            old(self).state() == ExecutionState::FinishedOffline ==> old(self).well_formed(),
        ensures
            old(self).well_formed() ==> final(self).well_formed(),
            final(self).spec_config() == old(self).spec_config(),
            final(self).wires() == old(self).wires(),
            old(self).state() != ExecutionState::FinishedOffline ==> {
                &&& r matches Err(error)
                &&& is_state_error(error, "prepare_input"@, old(self).state())
            },
            old(self).state() == ExecutionState::FinishedOffline ==> inputs_outcome(
                given(user_inputs@),
                network_inputs_by(
                    old(self).spec_config().spec_circuit().online(),
                    old(self).spec_config().id(),
                ),
                r,
            ),
            old(self).state() == ExecutionState::FinishedOffline ==> {
                let own = network_inputs_by(
                    old(self).spec_config().spec_circuit().online(),
                    old(self).spec_config().id(),
                );
                r is Ok <==> {
                    &&& forall|i: int, j: int|
                        0 <= i < j < user_inputs@.len() ==> user_inputs@[i].0 != user_inputs@[j].0
                    &&& forall|i: int|
                        0 <= i < user_inputs@.len() ==> own.contains((#[trigger] user_inputs@[i]).0)
                    &&& forall|w: WireId| #[trigger] own.contains(w) ==> (exists|i: int|
                            0 <= i < user_inputs@.len() && (#[trigger] user_inputs@[i]).0 == w)
                }
            },
            r is Ok ==> {
                &&& final(self).state() == ExecutionState::ReadyOnline
                &&& final(self).context() is Some
                &&& old(self).spec_scheme().prepared(
                    old(self).context().unwrap(),
                    user_inputs@,
                    final(self).context().unwrap(),
                )
                &&& final(self).unstarted()
                &&& final(self).waiting() is None
            },
            r is Err ==> *final(self) == *old(self),
    {
        if self.execution_state != ExecutionState::FinishedOffline {
            return Err(self.refuse("prepare_input"));
        }
        let own = self.config.circuit().get_input_operation_wire_ids_of_party(
            self.config.my_id(),
        );
        match check_inputs(&own, &user_inputs) {
            Ok(_) => {},
            Err(error) => return Err(error),
        }
        let mut context = self.scheme_context.take().unwrap();
        self.config.scheme().prepare_user_input(&mut context, user_inputs);
        self.scheme_context = Some(context);
        self.execution_state = ExecutionState::ReadyOnline;
        proof {
            lemma_wires_after_grow(
                self.config,
                self.config.spec_circuit().offline().len() as int,
                self.end(),
            );
            assert(self.wire_contents@.dom() =~= wires_after(self.config, self.base()));
        }
        Ok(())
    }
}

} // verus!

verus! {

/// The pairs that have the given identifier, in order.
pub open spec fn with_id<'a, W>(pairs: Seq<(usize, &'a W)>, id: usize) -> Seq<(usize, &'a W)> {
    pairs.filter(|pair: (usize, &'a W)| pair.0 == id)
}

/// Sorts pairs by their identifiers with `itertools::Itertools::sorted_by_key`.
///
/// The pairs come out in ascending order of their identifiers; pairs with the same identifier
/// keep the order in which they were given, and no pair is added or lost.
#[verifier::external_body]
fn sorted_by_id<'a, W>(pairs: Vec<(usize, &'a W)>) -> (sorted: Vec<(usize, &'a W)>)
    ensures
        sorted@.to_multiset() == pairs@.to_multiset(),
        forall|i: int, j: int| 0 <= i <= j < sorted@.len() ==> sorted@[i].0 <= sorted@[j].0,
        forall|id: usize| #[trigger] with_id(sorted@, id) == with_id(pairs@, id),
{
    pairs.into_iter().sorted_by_key(|pair| pair.0).collect()
}

/// Whether `listed` are the wires that `predicate` may answer with true, in ascending order, and
/// `predicate` may answer with false for every wire that is left out.
pub open spec fn lists_wires<W, P: FnMut(&W) -> bool>(
    wires: Map<usize, W>,
    predicate: P,
    listed: Seq<(usize, &W)>,
) -> bool {
    &&& forall|i: int, j: int| 0 <= i < j < listed.len() ==> listed[i].0 < listed[j].0
    &&& forall|i: int|
        0 <= i < listed.len() ==> wires.contains_key((#[trigger] listed[i]).0) && *listed[i].1
            == wires[listed[i].0] && call_ensures(predicate, (listed[i].1,), true)
    &&& forall|id: usize| #[trigger]
        wires.contains_key(id) ==> listed.contains((id, &wires[id])) || call_ensures(
            predicate,
            (&wires[id],),
            false,
        )
}

/// Whether `pairs` are those of the given entries that `predicate` may answer with true.
spec fn selects<W, P: FnMut(&W) -> bool>(
    entries: Seq<(&usize, &W)>,
    predicate: P,
    pairs: Seq<(usize, &W)>,
) -> bool {
    &&& forall|i: int, j: int| 0 <= i < j < pairs.len() ==> pairs[i].0 != pairs[j].0
    &&& forall|i: int|
        0 <= i < pairs.len() ==> entries.contains((&(#[trigger] pairs[i]).0, pairs[i].1))
            && call_ensures(predicate, (pairs[i].1,), true)
    &&& forall|j: int|
        0 <= j < entries.len() ==> pairs.contains((*(#[trigger] entries[j]).0, entries[j].1))
            || call_ensures(predicate, (entries[j].1,), false)
}

/// One more entry, whose identifier is new, is selected as the predicate says.
proof fn lemma_selects_step<W, P: FnMut(&W) -> bool>(
    entries: Seq<(&usize, &W)>,
    predicate: P,
    pairs: Seq<(usize, &W)>,
    entry: (&usize, &W),
    answer: bool,
)
    requires
        selects(entries, predicate, pairs),
        call_ensures(predicate, (entry.1,), answer),
        forall|j: int| 0 <= j < entries.len() ==> *(#[trigger] entries[j]).0 != *entry.0,
    ensures
        selects(
            entries.push(entry),
            predicate,
            if answer {
                pairs.push((*entry.0, entry.1))
            } else {
                pairs
            },
        ),
{
    let more = entries.push(entry);
    let pair = (*entry.0, entry.1);
    let after = if answer {
        pairs.push(pair)
    } else {
        pairs
    };
    assert(more[entries.len() as int] == entry);
    assert forall|i: int| 0 <= i < after.len() implies more.contains(
        (&(#[trigger] after[i]).0, after[i].1),
    ) by {
        if i < pairs.len() {
            let j = entries.index_of((&pairs[i].0, pairs[i].1));
            assert(more[j] == entries[j]);
        }
    }
    assert forall|j: int| 0 <= j < more.len() implies after.contains(
        (*(#[trigger] more[j]).0, more[j].1),
    ) || call_ensures(predicate, (more[j].1,), false) by {
        if j < entries.len() {
            assert(more[j] == entries[j]);
            if pairs.contains((*entries[j].0, entries[j].1)) {
                let i = pairs.index_of((*entries[j].0, entries[j].1));
                assert(after[i] == pairs[i]);
            }
        } else if answer {
            assert(after[pairs.len() as int] == pair);
        }
    }
    assert forall|i: int, j: int| 0 <= i < j < after.len() implies after[i].0 != after[j].0 by {
        if j == pairs.len() {
            let k = entries.index_of((&pairs[i].0, pairs[i].1));
            assert(*entries[k].0 != *entry.0);
        }
    }
}

/// What is selected from all entries lists the wires once it is sorted.
proof fn lemma_sorted_lists<W, P: FnMut(&W) -> bool>(
    wires: Map<usize, W>,
    entries: Seq<(&usize, &W)>,
    predicate: P,
    pairs: Seq<(usize, &W)>,
    sorted: Seq<(usize, &W)>,
)
    requires
        selects(entries, predicate, pairs),
        forall|j: int|
            0 <= j < entries.len() ==> wires.contains_key(*(#[trigger] entries[j]).0) && *entries[j].1
                == wires[*entries[j].0],
        forall|id: usize| #[trigger]
            wires.contains_key(id) ==> entries.contains((&id, &wires[id])),
        sorted.to_multiset() == pairs.to_multiset(),
        forall|i: int, j: int| 0 <= i <= j < sorted.len() ==> sorted[i].0 <= sorted[j].0,
    ensures
        lists_wires(wires, predicate, sorted),
{
    broadcast use vstd::seq_lib::group_to_multiset_ensures;

    assert forall|pair: (usize, &W)| sorted.contains(pair) == pairs.contains(pair) by {
        assert(sorted.contains(pair) == (sorted.to_multiset().count(pair) > 0));
        assert(pairs.contains(pair) == (pairs.to_multiset().count(pair) > 0));
    }
    assert(pairs.no_duplicates());
    pairs.lemma_multiset_has_no_duplicates();
    sorted.lemma_multiset_has_no_duplicates_conv();
    assert forall|i: int| 0 <= i < sorted.len() implies wires.contains_key(
        (#[trigger] sorted[i]).0,
    ) && *sorted[i].1 == wires[sorted[i].0] && call_ensures(predicate, (sorted[i].1,), true) by {
        assert(pairs.contains(sorted[i]));
        let k = pairs.index_of(sorted[i]);
        let j = entries.index_of((&pairs[k].0, pairs[k].1));
        assert(entries[j] == (&pairs[k].0, pairs[k].1));
    }
    assert forall|i: int, j: int| 0 <= i < j < sorted.len() implies sorted[i].0 < sorted[j].0 by {
        assert(pairs.contains(sorted[i]) && pairs.contains(sorted[j]));
        let a = pairs.index_of(sorted[i]);
        let b = pairs.index_of(sorted[j]);
        assert(a != b);
    }
    assert forall|id: usize| #[trigger] wires.contains_key(id) implies sorted.contains(
        (id, &wires[id]),
    ) || call_ensures(predicate, (&wires[id],), false) by {
        let j = entries.index_of((&id, &wires[id]));
        assert(entries[j] == (&id, &wires[id]));
        assert(sorted.contains((id, &wires[id])) == pairs.contains((id, &wires[id])));
    }
}

impl<S: MpcScheme> ExecutionContext<S> {
    /// The wires that satisfy the predicate with their values, in ascending order.
    pub fn dump_wires_with_filter<P>(&self, predicate: P) -> (listed: Vec<(usize, &S::Wire)>)
        where P: FnMut(&S::Wire) -> bool
        requires
            forall|id: usize| #[trigger]
                self.wires().contains_key(id) ==> call_requires(predicate, (&self.wires()[id],)),
        ensures
            lists_wires(self.wires(), predicate, listed@),
    {
        broadcast use vstd::function::group_function_axioms;

        let mut ask = predicate;
        let ghost wires = self.wire_contents@;
        assert forall|id: usize| #[trigger] wires.contains_key(id) implies call_requires(
            predicate,
            (&wires[id],),
        ) by {
            assert(self.wires().contains_key(id));
        }
        let mut pairs: Vec<(usize, &S::Wire)> = Vec::new();
        for entry in it: self.wire_contents.iter()
            invariant
                wires == self.wires(),
                wires == self.wire_contents@,
                ask == predicate,
                forall|id: usize| #[trigger]
                    wires.contains_key(id) ==> call_requires(predicate, (&wires[id],)),
                it.seq() == vstd::std_specs::hash::spec_hash_map_iter(
                    &self.wire_contents,
                ).remaining(),
                it.seq().no_duplicates(),
                selects(it.seq().take(it.index()), predicate, pairs@),
        {
            let ghost before = pairs@;
            assert(entry == it.seq()[it.index()]);
            assert(wires.contains_key(*entry.0) && wires[*entry.0] == *entry.1);
            let answer = ask(entry.1);
            if answer {
                pairs.push((*entry.0, entry.1));
            }
            proof {
                let seen = it.seq().take(it.index());
                assert(it.seq().take(it.index() + 1) =~= seen.push(entry));
                assert forall|j: int| 0 <= j < seen.len() implies *(#[trigger] seen[j]).0
                    != *entry.0 by {
                    assert(seen[j] == it.seq()[j]);
                    assert(wires[*it.seq()[j].0] == *it.seq()[j].1);
                    assert(wires[*entry.0] == *entry.1);
                }
                lemma_selects_step(seen, predicate, before, entry, answer);
            }
        }
        let ghost entries = vstd::std_specs::hash::spec_hash_map_iter(
            &self.wire_contents,
        ).remaining();
        proof {
            assert(entries.take(entries.len() as int) =~= entries);
        }
        let sorted = sorted_by_id(pairs);
        proof {
            lemma_sorted_lists(wires, entries, predicate, pairs@, sorted@);
        }
        sorted
    }
}

} // verus!

verus! {

/// What the invariant of an execution says of its configuration and its context.
pub proof fn lemma_well_formed<S: MpcScheme>(execution: ExecutionContext<S>)
    requires
        execution.well_formed(),
    ensures
        execution.spec_config().well_formed(),
        execution.context() is Some <==> execution.state() != ExecutionState::NewBorn,
{
}

/// The states follow each other in order: a phase moves on when it finishes, and only then.
pub proof fn law_states_follow_in_order<S: MpcScheme>(
    before: ExecutionContext<S>,
    k: int,
    tally: (int, int),
    after: ExecutionContext<S>,
    result: Result<Step<S>, ExecutionContextError>,
)
    requires
        continues(before, k, tally, after, result),
    ensures
        after.state() == if result matches Ok(Step::Finished { .. }) {
            next_state(before.state())
        } else {
            before.state()
        },
{
}

/// Between the phases exactly the wires of the rounds that are done have values: none before the
/// offline phase, and all wires of the circuit in the end.
pub proof fn law_wires_between_phases<S: MpcScheme>(execution: ExecutionContext<S>)
    requires
        execution.well_formed(),
    ensures
        execution.state() == ExecutionState::NewBorn ==> execution.wires().dom() == Set::<
            usize,
        >::empty(),
        execution.state() == ExecutionState::FinishedOffline ==> execution.wires().dom() == ids(
            all_outputs(run_order(execution.spec_config().spec_circuit().offline())),
        ),
        execution.state() == ExecutionState::Finished ==> execution.wires().dom() == ids(
            all_outputs(run_order(all_rounds(execution.spec_config()))),
        ),
{
    let config = execution.config;
    let rounds = all_rounds(config);
    lemma_wires_after_none(config);
    assert(rounds.take(rounds.len() as int) =~= rounds);
    assert(rounds.take(config.spec_circuit().offline().len() as int)
        =~= config.spec_circuit().offline());
    if execution.base() == execution.end() {
        assert(execution.wires().dom() =~= wires_after(config, execution.base()));
    }
}

/// No value of a wire changes when a phase continues.
pub proof fn law_phase_keeps_values<S: MpcScheme>(
    before: ExecutionContext<S>,
    k: int,
    tally: (int, int),
    after: ExecutionContext<S>,
    result: Result<Step<S>, ExecutionContextError>,
    w: usize,
)
    requires
        continues(before, k, tally, after, result),
        before.wires().contains_key(w),
    ensures
        after.wires().contains_key(w),
        after.wires()[w] == before.wires()[w],
{
    if before.base() + k != before.end() {
        let config = before.spec_config();
        let at = before.base() + k;
        let from = (before.context().unwrap(), before.wires());
        let to = (after.context().unwrap(), after.wires());
        let outcome = match result {
            Ok(Step::Exchange(exchange)) => Ok((after.waiting().unwrap().1, exchange)),
            Ok(Step::Finished { .. }) => arbitrary(),
            Err(error) => Err(error),
        };
        law_round_keeps_values(before.spec_scheme(), all_rounds(config)[at], from, to, outcome, w);
    }
}

/// No value of a wire changes when the network operations of a round are finalized.
pub proof fn law_completion_keeps_values<S: MpcScheme>(
    before: ExecutionContext<S>,
    data: Seq<Vec<S::NetworkElement>>,
    results: Seq<FinalizePhaseOutput<S>>,
    after: ExecutionContext<S>,
    w: usize,
)
    requires
        completes(before, data, results, after),
        before.wires().contains_key(w),
    ensures
        after.wires().contains_key(w),
        after.wires()[w] == before.wires()[w],
{
    let config = before.spec_config();
    let at = before.base() + before.waiting().unwrap().0;
    let outs = all_outputs(all_rounds(config)[at].network());
    if ids(outs).contains(w) {
        let i = outs.index_of(WireId(w));
        assert(!before.wires().contains_key(outs[i].0));
    }
    lemma_store_all_keeps(before.wires(), all_rounds(config)[at].network(), results, w);
}

} // verus!
