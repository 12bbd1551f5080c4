//! The states of an execution, and its errors.

use vstd::prelude::*;
use vstd::string::*;

use crate::mpc::circuit::{MpcCircuitError, WireId};
use crate::text::{concat, decimal, joined, with_number};

verus! {

/// How far an execution has come.
#[derive(Debug, Clone, Copy, PartialEq, Eq, Structural)]
pub enum ExecutionState {
    /// Just created, no action has been performed.
    NewBorn,
    /// The parties have checked that they have the same plan.
    Handshaked,
    /// The offline rounds are done.
    FinishedOffline,
    /// The inputs of the user are accepted.
    ReadyOnline,
    /// The execution is done.
    Finished,
}

/// Why a step of an execution fails.
#[derive(Debug)]
pub enum ExecutionContextError {
    /// The configuration does not fit the network.
    InvalidConfiguration { msg: String },
    /// The step is not allowed in this state.
    StateError { op: String, state: ExecutionState },
    /// The network failed.
    NetworkError { source: String },
    /// The parties do not run the same plan.
    PlanNotAgreed,
    /// Two inputs are given for one wire.
    DuplicateInput { wire: WireId },
    /// The wire is not an input of this party.
    InvalidInputWire { wire: WireId },
    /// An input of this party is missing.
    NotEnoughInputs,
    /// The scheme failed.
    SchemeError { phase: String, msg: String },
}

impl ExecutionState {
    /// The name of the state.
    pub open spec fn spec_name(self) -> Seq<char> {
        match self {
            ExecutionState::NewBorn => "NewBorn"@,
            ExecutionState::Handshaked => "Handshaked"@,
            ExecutionState::FinishedOffline => "FinishedOffline"@,
            ExecutionState::ReadyOnline => "ReadyOnline"@,
            ExecutionState::Finished => "Finished"@,
        }
    }

    /// The name of the state.
    pub fn name(&self) -> (s: &'static str)
        ensures
            s@ == self.spec_name(),
    {
        match self {
            ExecutionState::NewBorn => "NewBorn",
            ExecutionState::Handshaked => "Handshaked",
            ExecutionState::FinishedOffline => "FinishedOffline",
            ExecutionState::ReadyOnline => "ReadyOnline",
            ExecutionState::Finished => "Finished",
        }
    }
}

impl MpcCircuitError {
    /// The error in words.
    pub open spec fn words(&self) -> Seq<char> {
        match self {
            MpcCircuitError::CircuitUnsound => "The provided circuit is not sound"@,
            MpcCircuitError::WireProducedManyTimes { wire } => "Wire "@ + decimal(wire.0 as nat)
                + " produced multiple times"@,
            MpcCircuitError::WireConsumedButNotProduced { wire } => "Wire "@ + decimal(
                wire.0 as nat,
            ) + " is consumed but it is never produced"@,
            MpcCircuitError::CircuitCyclic => "Circuit is cyclic"@,
            MpcCircuitError::EmptyCircuit => "Circuit is empty"@,
        }
    }

    /// The error in words.
    pub fn message(&self) -> (s: String)
        ensures
            s@ == self.words(),
    {
        match self {
            MpcCircuitError::CircuitUnsound => "The provided circuit is not sound".to_owned(),
            MpcCircuitError::WireProducedManyTimes { wire } => with_number(
                "Wire ",
                wire.0,
                " produced multiple times",
            ),
            MpcCircuitError::WireConsumedButNotProduced { wire } => with_number(
                "Wire ",
                wire.0,
                " is consumed but it is never produced",
            ),
            MpcCircuitError::CircuitCyclic => "Circuit is cyclic".to_owned(),
            MpcCircuitError::EmptyCircuit => "Circuit is empty".to_owned(),
        }
    }
}

impl ExecutionContextError {
    /// The error in words.
    pub open spec fn words(&self) -> Seq<char> {
        match self {
            ExecutionContextError::InvalidConfiguration { msg } => "Invalid configuration: "@ + msg@,
            ExecutionContextError::StateError { op, state } => "Execution state error: "@ + op@
                + " not allowed in state "@ + state.spec_name(),
            ExecutionContextError::NetworkError { source } => "Network error: "@ + source@,
            ExecutionContextError::PlanNotAgreed => "Plan not agreed between parties"@,
            ExecutionContextError::DuplicateInput { wire } => "Duplicate input for wire "@
                + decimal(wire.0 as nat),
            ExecutionContextError::InvalidInputWire { wire } => "Wire "@ + decimal(wire.0 as nat)
                + " is not an output of an input operation"@,
            ExecutionContextError::NotEnoughInputs => "Not enough inputs provided"@,
            ExecutionContextError::SchemeError { phase, msg } => "Scheme error during "@ + phase@
                + ": "@ + msg@,
        }
    }

    /// The error in words.
    pub fn message(&self) -> (s: String)
        ensures
            s@ == self.words(),
    {
        proof {
            reveal_with_fuel(joined, 5);
        }
        match self {
            ExecutionContextError::InvalidConfiguration { msg } => {
                let s = concat(&["Invalid configuration: ", msg.as_str()]);
                assert(s@ =~= self.words());
                s
            },
            ExecutionContextError::StateError { op, state } => {
                let s = concat(
                    &[
                        "Execution state error: ",
                        op.as_str(),
                        " not allowed in state ",
                        state.name(),
                    ],
                );
                assert(s@ =~= self.words());
                s
            },
            ExecutionContextError::NetworkError { source } => {
                let s = concat(&["Network error: ", source.as_str()]);
                assert(s@ =~= self.words());
                s
            },
            ExecutionContextError::PlanNotAgreed => "Plan not agreed between parties".to_owned(),
            ExecutionContextError::DuplicateInput { wire } => {
                let s = with_number("Duplicate input for wire ", wire.0, "");
                proof {
                    reveal_strlit("");
                }
                assert(s@ =~= self.words());
                s
            },
            ExecutionContextError::InvalidInputWire { wire } => with_number(
                "Wire ",
                wire.0,
                " is not an output of an input operation",
            ),
            ExecutionContextError::NotEnoughInputs => "Not enough inputs provided".to_owned(),
            ExecutionContextError::SchemeError { phase, msg } => {
                let s = concat(&["Scheme error during ", phase.as_str(), ": ", msg.as_str()]);
                assert(s@ =~= self.words());
                s
            },
        }
    }
}

/// The words of the errors of a circuit name the wire.
pub proof fn law_words_about_circuits(wire: WireId)
    ensures
        MpcCircuitError::CircuitUnsound.words() == "The provided circuit is not sound"@,
        (MpcCircuitError::WireProducedManyTimes { wire }).words() == "Wire "@ + decimal(
            wire.0 as nat,
        ) + " produced multiple times"@,
        (MpcCircuitError::WireConsumedButNotProduced { wire }).words() == "Wire "@ + decimal(
            wire.0 as nat,
        ) + " is consumed but it is never produced"@,
        MpcCircuitError::CircuitCyclic.words() == "Circuit is cyclic"@,
        MpcCircuitError::EmptyCircuit.words() == "Circuit is empty"@,
{
}

/// The names of the states are those of their variants.
pub proof fn law_names_of_states()
    ensures
        ExecutionState::NewBorn.spec_name() == "NewBorn"@,
        ExecutionState::Handshaked.spec_name() == "Handshaked"@,
        ExecutionState::FinishedOffline.spec_name() == "FinishedOffline"@,
        ExecutionState::ReadyOnline.spec_name() == "ReadyOnline"@,
        ExecutionState::Finished.spec_name() == "Finished"@,
{
}

/// The words of the errors of an execution say what they are about.
pub proof fn law_words_about_executions(error: ExecutionContextError)
    ensures
        match error {
            ExecutionContextError::InvalidConfiguration { msg } => error.words()
                == "Invalid configuration: "@ + msg@,
            ExecutionContextError::StateError { op, state } => error.words()
                == "Execution state error: "@ + op@ + " not allowed in state "@ + state.spec_name(),
            ExecutionContextError::NetworkError { source } => error.words() == "Network error: "@
                + source@,
            ExecutionContextError::PlanNotAgreed => error.words()
                == "Plan not agreed between parties"@,
            ExecutionContextError::DuplicateInput { wire } => error.words()
                == "Duplicate input for wire "@ + decimal(wire.0 as nat),
            ExecutionContextError::InvalidInputWire { wire } => error.words() == "Wire "@ + decimal(
                wire.0 as nat,
            ) + " is not an output of an input operation"@,
            ExecutionContextError::NotEnoughInputs => error.words()
                == "Not enough inputs provided"@,
            ExecutionContextError::SchemeError { phase, msg } => error.words()
                == "Scheme error during "@ + phase@ + ": "@ + msg@,
        },
{
}

} // verus!
