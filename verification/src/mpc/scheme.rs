//! What a computation scheme provides: its operations and the two phases of each of them.

use vstd::prelude::*;

use crate::mpc::circuit::{MpcCircuit, WireId};
use crate::networking::network::{ReceiveRequest, SendRequest};
use crate::seqs::join;

verus! {

/// An operation of a circuit.
pub trait Operation: Sized {
    /// The party that provides the value of this operation, if it is an input.
    spec fn input_party(&self) -> Option<usize>;

    /// The wires that this operation consumes.
    spec fn input_wires(&self) -> Seq<WireId>;

    /// The wires that this operation produces.
    spec fn output_wires(&self) -> Seq<WireId>;

    /// An input operation yields exactly one output.
    proof fn input_yields_one_output(&self)
        requires
            self.input_party() is Some,
        ensures
            self.output_wires().len() == 1,
    ;

    /// If the operation is an input, the id of the party that gives the input.
    fn get_input_party_id(&self) -> (party: Option<usize>)
        ensures
            party == self.input_party(),
    ;

    /// The input wires of this operation, in order.
    fn inputs(&self) -> (wires: Vec<WireId>)
        ensures
            wires@ == self.input_wires(),
    ;

    /// The output wires of this operation, in order.
    fn outputs(&self) -> (wires: Vec<WireId>)
        ensures
            wires@ == self.output_wires(),
    ;

    /// Whether the operation is an input.
    fn is_input(&self) -> (b: bool)
        ensures
            b == (self.input_party() is Some),
    {
        self.get_input_party_id().is_some()
    }
}

/// An error that can be put into words.
pub trait Describe: Sized {
    /// The text of the error.
    spec fn text(&self) -> Seq<char>;

    /// The text of the error.
    fn describe(&self) -> (s: String)
        ensures
            s@ == self.text(),
    ;
}

impl Describe for core::convert::Infallible {
    open spec fn text(&self) -> Seq<char> {
        Seq::empty()
    }

    fn describe(&self) -> (s: String) {
        String::new()
    }
}

/// What an operation asks of the network before it can be finalized.
pub struct NetworkPhaseOutput<S: MpcScheme> {
    /// The operation, waiting for what the network brings.
    pub pending: S::Pending,
    /// What goes to the other parties.
    pub send_request: Vec<SendRequest<'static, S::NetworkElement>>,
    /// What is awaited from the other parties.
    pub receive_request: Vec<ReceiveRequest<S::NetworkElement>>,
}

/// The values of the output wires of an operation, in the order of its outputs.
pub struct FinalizePhaseOutput<S: MpcScheme>(pub Vec<S::Wire>);

/// Whether `data` holds one batch per request, each as long as its request says.
pub open spec fn answers<E>(requests: Seq<ReceiveRequest<E>>, data: Seq<Seq<E>>) -> bool {
    &&& data.len() == requests.len()
    &&& forall|i: int|
        0 <= i < requests.len() ==> (#[trigger] requests[i]).admits(data[i].len())
}

/// A multi-party computation scheme.
pub trait MpcScheme: Sized {
    /// What is remembered during the entire execution.
    type Context;

    /// What travels across the network.
    type NetworkElement: Clone + 'static;

    /// The value of a wire.
    type Wire;

    /// The input of a party.
    type Input;

    /// The operations of the scheme.
    type Operation: Operation;

    /// An operation between its network phase and its finalize phase.
    type Pending;

    /// The error of [`MpcScheme::establish_context`].
    type EstablishContextError: Describe;

    /// The error of [`MpcScheme::do_network_phase`].
    type NetworkPhaseError: Describe;

    /// The error of [`MpcScheme::do_finalize_phase`].
    type FinalizePhaseError: Describe;

    /// Whether the circuit makes sense in this scheme.
    spec fn sound(&self, circuit: Seq<Self::Operation>) -> bool;

    /// Whether `op` needs no communication once its inputs are there.
    spec fn local(&self, op: Self::Operation) -> bool;

    /// Whether the parameters of the scheme allow its phases to run.
    spec fn usable(&self) -> bool;

    /// What [`MpcScheme::establish_context`] may return.
    spec fn established(
        &self,
        my_id: usize,
        n_players: usize,
        circuit: MpcCircuit<Self>,
        result: Result<Self::Context, Self::EstablishContextError>,
    ) -> bool;

    /// What [`MpcScheme::prepare_user_input`] may make of a context.
    spec fn prepared(
        &self,
        before: Self::Context,
        inputs: Seq<(WireId, Self::Input)>,
        after: Self::Context,
    ) -> bool;

    /// What [`MpcScheme::do_network_phase`] may return, and make of a context.
    spec fn network_phase(
        &self,
        before: Self::Context,
        op: Self::Operation,
        inputs: Seq<Self::Wire>,
        after: Self::Context,
        result: Result<NetworkPhaseOutput<Self>, Self::NetworkPhaseError>,
    ) -> bool;

    /// Whether `pending` can be finalized with `data`.
    spec fn accepts(&self, pending: Self::Pending, data: Seq<Self::NetworkElement>) -> bool;

    /// What [`MpcScheme::do_finalize_phase`] may return, and make of a context.
    spec fn finalize_phase(
        &self,
        before: Self::Context,
        pending: Self::Pending,
        data: Seq<Self::NetworkElement>,
        after: Self::Context,
        result: Result<FinalizePhaseOutput<Self>, Self::FinalizePhaseError>,
    ) -> bool;

    /// A scheme that finds some circuit sound can run its phases.
    proof fn sound_is_usable(&self, circuit: Seq<Self::Operation>)
        requires
            self.sound(circuit),
        ensures
            self.usable(),
    ;

    /// The input operations of a scheme are not local.
    proof fn input_is_not_local(&self, op: Self::Operation)
        requires
            op.input_party() is Some,
        ensures
            !self.local(op),
    ;

    /// A local operation asks nothing of the network, and an operation can be finalized with any
    /// data that answers its requests.
    proof fn network_phase_is_consistent(
        &self,
        before: Self::Context,
        op: Self::Operation,
        inputs: Seq<Self::Wire>,
        after: Self::Context,
        output: NetworkPhaseOutput<Self>,
    )
        requires
            self.network_phase(before, op, inputs, after, Ok(output)),
        ensures
            self.local(op) ==> output.send_request@.len() == 0,
            self.local(op) ==> output.receive_request@.len() == 0,
            forall|data: Seq<Seq<Self::NetworkElement>>|
                #[trigger] answers(output.receive_request@, data) ==> self.accepts(
                    output.pending,
                    join(data),
                ),
    ;

    /// An operation is finalized with as many values as it has output wires.
    proof fn outputs_are_consistent(
        &self,
        op: Self::Operation,
        inputs: Seq<Self::Wire>,
        output: NetworkPhaseOutput<Self>,
        data: Seq<Self::NetworkElement>,
        result: FinalizePhaseOutput<Self>,
        contexts: (Self::Context, Self::Context, Self::Context, Self::Context),
    )
        requires
            self.network_phase(contexts.0, op, inputs, contexts.1, Ok(output)),
            self.finalize_phase(contexts.2, output.pending, data, contexts.3, Ok(result)),
        ensures
            result.0@.len() == op.output_wires().len(),
    ;

    /// Returns true if the circuit "makes sense". [`MpcCircuit::new`] fails if this returns false.
    fn is_circuit_sound(&self, circuit: &[Self::Operation]) -> (b: bool)
        ensures
            b == self.sound(circuit@),
    ;

    /// Returns `true` if `op` can be done without communication whenever the inputs are ready.
    fn is_operation_local(&self, op: &Self::Operation) -> (b: bool)
        ensures
            b == self.local(*op),
    ;

    /// Establishes the context of the party `my_id` among `n_players` for the circuit.
    fn establish_context(
        &self,
        my_id: usize,
        n_players: usize,
        circuit: &MpcCircuit<Self>,
    ) -> (result: Result<Self::Context, Self::EstablishContextError>)
        ensures
            self.established(my_id, n_players, *circuit, result),
    ;

    /// Hands the inputs of the user to the context. The caller ensures that the inputs are valid.
    fn prepare_user_input(
        &self,
        context: &mut Self::Context,
        inputs: Vec<(WireId, Self::Input)>,
    )
        requires
            self.usable(),
        ensures
            self.prepared(*old(context), inputs@, *final(context)),
    ;

    /// Given the values of the input wires of `op`, returns the requests to be processed before
    /// the operation can be finalized.
    fn do_network_phase(
        &self,
        context: &mut Self::Context,
        op: &Self::Operation,
        inputs: Vec<&Self::Wire>,
    ) -> (result: Result<NetworkPhaseOutput<Self>, Self::NetworkPhaseError>)
        requires
            self.usable(),
            inputs@.len() == op.input_wires().len(),
        ensures
            self.network_phase(*old(context), *op, inputs@.unref(), *final(context), result),
    ;

    /// Given what the network brought, finalizes a pending operation and returns the values of
    /// its output wires.
    fn do_finalize_phase(
        &self,
        context: &mut Self::Context,
        pending: Self::Pending,
        network_data: Vec<Self::NetworkElement>,
    ) -> (result: Result<FinalizePhaseOutput<Self>, Self::FinalizePhaseError>)
        requires
            self.usable(),
            self.accepts(pending, network_data@),
        ensures
            self.finalize_phase(*old(context), pending, network_data@, *final(context), result),
    ;
}

} // verus!
