//! The place of a party in a computation.

use vstd::prelude::*;

use crate::mpc::circuit::MpcCircuit;
use crate::mpc::scheme::MpcScheme;

verus! {

/// A circuit, and which of how many parties runs it.
pub struct MpcConfig<S: MpcScheme> {
    my_id: usize,
    n_parties: usize,
    circuit: MpcCircuit<S>,
}

/// Why a configuration is refused.
#[derive(Debug, PartialEq, Eq, Structural)]
pub enum MpcConfigError {
    /// The id of the party is not below the number of parties.
    InvalidPartyId,
}

impl MpcConfigError {
    /// The error in words.
    pub fn message(&self) -> (s: String)
        ensures
            s@ == "`my_id` must be less than `n_parties`"@,
    {
        match self {
            MpcConfigError::InvalidPartyId => "`my_id` must be less than `n_parties`".to_owned(),
        }
    }
}

impl<S: MpcScheme> MpcConfig<S> {
    /// The id of the party.
    pub closed spec fn id(&self) -> usize {
        self.my_id
    }

    /// The number of parties.
    pub closed spec fn parties(&self) -> usize {
        self.n_parties
    }

    /// The circuit.
    pub closed spec fn spec_circuit(&self) -> MpcCircuit<S> {
        self.circuit
    }

    /// What holds of every configuration.
    pub open spec fn well_formed(&self) -> bool {
        &&& self.id() < self.parties()
        &&& self.spec_circuit().well_formed()
    }

    /// A configuration, if `my_id` is one of the `n_parties` parties.
    pub fn new(my_id: usize, n_parties: usize, circuit: MpcCircuit<S>) -> (r: Result<
        Self,
        MpcConfigError,
    >)
        ensures
            match r {
                Ok(config) => {
                    &&& my_id < n_parties
                    &&& config.id() == my_id
                    &&& config.parties() == n_parties
                    &&& config.spec_circuit() == circuit
                },
                Err(MpcConfigError::InvalidPartyId) => my_id >= n_parties,
            },
    {
        if my_id >= n_parties {
            return Err(MpcConfigError::InvalidPartyId);
        }
        Ok(MpcConfig { my_id, n_parties, circuit })
    }

    /// The configuration of the given parts, whatever they are.
    pub fn from_parts(my_id: usize, n_parties: usize, circuit: MpcCircuit<S>) -> (config: Self)
        ensures
            config.id() == my_id,
            config.parties() == n_parties,
            config.spec_circuit() == circuit,
    {
        MpcConfig { my_id, n_parties, circuit }
    }

    /// The id of the party.
    pub fn my_id(&self) -> (id: usize)
        ensures
            id == self.id(),
    {
        self.my_id
    }

    /// The circuit.
    pub fn circuit(&self) -> (circuit: &MpcCircuit<S>)
        ensures
            *circuit == self.spec_circuit(),
    {
        &self.circuit
    }

    /// The scheme of the circuit.
    pub fn scheme(&self) -> (scheme: &S)
        ensures
            *scheme == self.spec_circuit().spec_scheme(),
    {
        self.circuit.scheme()
    }

    /// The number of parties.
    pub fn n_parties(&self) -> (n: usize)
        ensures
            n == self.parties(),
    {
        self.n_parties
    }
}

} // verus!
