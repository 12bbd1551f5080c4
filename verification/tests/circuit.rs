//! Circuits and their rounds.

use std::convert::Infallible;

use mpc_core::example::additive::{AdditiveOperation, AdditiveScheme};
use mpc_core::mpc::{
    FinalizePhaseOutput, MpcCircuit, MpcCircuitError, MpcConfig, MpcConfigError, MpcScheme,
    NetworkPhaseOutput, Operation, WireId,
};
use vstd::seq::Seq;

#[derive(Debug, Clone, PartialEq, Eq)]
enum MockOp {
    Input(usize, WireId),
    Local(Vec<WireId>, WireId),
    Network(Vec<WireId>, WireId),
}

impl Operation for MockOp {
    fn input_party(&self) -> Option<usize> {
        unreachable!()
    }

    fn input_wires(&self) -> Seq<WireId> {
        unreachable!()
    }

    fn output_wires(&self) -> Seq<WireId> {
        unreachable!()
    }

    fn input_yields_one_output(&self) {}

    fn get_input_party_id(&self) -> Option<usize> {
        match self {
            MockOp::Input(party, _) => Some(*party),
            _ => None,
        }
    }

    fn inputs(&self) -> Vec<WireId> {
        match self {
            MockOp::Input(_, _) => vec![],
            MockOp::Local(ins, _) | MockOp::Network(ins, _) => ins.clone(),
        }
    }

    fn outputs(&self) -> Vec<WireId> {
        match self {
            MockOp::Input(_, out) | MockOp::Local(_, out) | MockOp::Network(_, out) => vec![*out],
        }
    }
}

#[derive(Debug, Clone)]
struct MockScheme {
    sound: bool,
}

const MOCK: MockScheme = MockScheme { sound: true };
const UNSOUND: MockScheme = MockScheme { sound: false };

impl MpcScheme for MockScheme {
    type Context = ();
    type NetworkElement = ();
    type Wire = ();
    type Input = ();
    type Operation = MockOp;
    type Pending = ();
    type EstablishContextError = Infallible;
    type NetworkPhaseError = Infallible;
    type FinalizePhaseError = Infallible;

    fn sound(&self, _circuit: Seq<MockOp>) -> bool {
        unreachable!()
    }

    fn local(&self, _op: MockOp) -> bool {
        unreachable!()
    }

    fn usable(&self) -> bool {
        unreachable!()
    }

    fn established(
        &self,
        _my_id: usize,
        _n_players: usize,
        _circuit: MpcCircuit<Self>,
        _result: Result<(), Infallible>,
    ) -> bool {
        unreachable!()
    }

    fn prepared(&self, _before: (), _inputs: Seq<(WireId, ())>, _after: ()) -> bool {
        unreachable!()
    }

    fn network_phase(
        &self,
        _before: (),
        _op: MockOp,
        _inputs: Seq<()>,
        _after: (),
        _result: Result<NetworkPhaseOutput<Self>, Infallible>,
    ) -> bool {
        unreachable!()
    }

    fn accepts(&self, _pending: (), _data: Seq<()>) -> bool {
        unreachable!()
    }

    fn finalize_phase(
        &self,
        _before: (),
        _pending: (),
        _data: Seq<()>,
        _after: (),
        _result: Result<FinalizePhaseOutput<Self>, Infallible>,
    ) -> bool {
        unreachable!()
    }

    fn sound_is_usable(&self, _circuit: Seq<MockOp>) {}

    fn input_is_not_local(&self, _op: MockOp) {}

    fn network_phase_is_consistent(
        &self,
        _before: (),
        _op: MockOp,
        _inputs: Seq<()>,
        _after: (),
        _output: NetworkPhaseOutput<Self>,
    ) {
    }

    fn outputs_are_consistent(
        &self,
        _op: MockOp,
        _inputs: Seq<()>,
        _output: NetworkPhaseOutput<Self>,
        _data: Seq<()>,
        _result: FinalizePhaseOutput<Self>,
        _contexts: ((), (), (), ()),
    ) {
    }

    fn is_circuit_sound(&self, _circuit: &[MockOp]) -> bool {
        self.sound
    }

    fn is_operation_local(&self, op: &MockOp) -> bool {
        matches!(op, MockOp::Local(_, _))
    }

    fn establish_context(
        &self,
        _my_id: usize,
        _n_players: usize,
        _circuit: &MpcCircuit<Self>,
    ) -> Result<(), Infallible> {
        Ok(())
    }

    fn prepare_user_input(&self, _context: &mut (), _inputs: Vec<(WireId, ())>) {}

    fn do_network_phase(
        &self,
        _context: &mut (),
        _op: &MockOp,
        _inputs: Vec<&()>,
    ) -> Result<NetworkPhaseOutput<Self>, Infallible> {
        Ok(NetworkPhaseOutput {
            pending: (),
            send_request: vec![],
            receive_request: vec![],
        })
    }

    fn do_finalize_phase(
        &self,
        _context: &mut (),
        _pending: (),
        _network_data: Vec<()>,
    ) -> Result<FinalizePhaseOutput<Self>, Infallible> {
        Ok(FinalizePhaseOutput(vec![()]))
    }
}

fn refusal(ops: Vec<MockOp>, scheme: MockScheme) -> MpcCircuitError {
    match MpcCircuit::new(ops, scheme) {
        Err(e) => e,
        Ok(_) => panic!("Expected error"),
    }
}

#[test]
fn test_offline_and_online_rounds() {
    let ops = vec![
        MockOp::Local(vec![], WireId(0)),
        MockOp::Local(vec![], WireId(1)),
        MockOp::Network(vec![WireId(0), WireId(1)], WireId(2)),
        MockOp::Input(0, WireId(3)),
        MockOp::Local(vec![WireId(3)], WireId(4)),
        MockOp::Network(vec![WireId(2), WireId(4)], WireId(5)),
    ];

    let circuit = MpcCircuit::new(ops, MOCK).unwrap();

    let offline = circuit.offline_rounds();
    assert_eq!(offline.len(), 1);

    assert_eq!(offline[0].local_operations().len(), 2);
    assert_eq!(offline[0].network_operations().len(), 1);
    assert_eq!(
        offline[0].network_operations()[0],
        MockOp::Network(vec![WireId(0), WireId(1)], WireId(2))
    );

    let online = circuit.online_rounds();
    assert_eq!(online.len(), 2);

    assert_eq!(online[0].local_operations().len(), 0);
    assert_eq!(online[0].network_operations().len(), 1);
    assert_eq!(
        online[0].network_operations()[0],
        MockOp::Input(0, WireId(3))
    );

    assert_eq!(online[1].local_operations().len(), 1);
    assert_eq!(
        online[1].local_operations()[0],
        MockOp::Local(vec![WireId(3)], WireId(4))
    );
    assert_eq!(online[1].network_operations().len(), 1);
    assert_eq!(
        online[1].network_operations()[0],
        MockOp::Network(vec![WireId(2), WireId(4)], WireId(5))
    );
}

#[test]
fn test_empty_circuit() {
    let err = refusal(Vec::<MockOp>::new(), MOCK);
    assert!(matches!(err, MpcCircuitError::EmptyCircuit));
}

#[test]
fn test_unsound_circuit() {
    let ops = vec![MockOp::Local(vec![], WireId(0))];
    let err = refusal(ops, UNSOUND);
    assert!(matches!(err, MpcCircuitError::CircuitUnsound));
}

#[test]
fn test_wire_produced_many_times() {
    let ops = vec![
        MockOp::Local(vec![], WireId(1)),
        MockOp::Local(vec![], WireId(1)),
    ];
    let err = refusal(ops, MOCK);
    assert!(matches!(
        err,
        MpcCircuitError::WireProducedManyTimes { wire: WireId(1) }
    ));
}

#[test]
fn test_wire_consumed_but_not_produced() {
    let ops = vec![MockOp::Local(vec![WireId(99)], WireId(1))];
    let err = refusal(ops, MOCK);
    assert!(matches!(
        err,
        MpcCircuitError::WireConsumedButNotProduced { wire: WireId(99) }
    ));
}

#[test]
fn test_circuit_cyclic() {
    let ops = vec![
        MockOp::Local(vec![WireId(2)], WireId(1)),
        MockOp::Local(vec![WireId(1)], WireId(2)),
    ];
    let err = refusal(ops, MOCK);
    assert!(matches!(err, MpcCircuitError::CircuitCyclic));
}

#[test]
fn first_offending_wire_is_reported() {
    let ops = vec![
        MockOp::Local(vec![], WireId(7)),
        MockOp::Local(vec![], WireId(8)),
        MockOp::Local(vec![WireId(50)], WireId(8)),
        MockOp::Local(vec![], WireId(7)),
    ];
    assert!(matches!(
        refusal(ops, MOCK),
        MpcCircuitError::WireProducedManyTimes { wire: WireId(8) }
    ));
    let ops = vec![
        MockOp::Local(vec![], WireId(1)),
        MockOp::Local(vec![WireId(1), WireId(60)], WireId(2)),
        MockOp::Local(vec![WireId(70)], WireId(3)),
    ];
    assert!(matches!(
        refusal(ops, MOCK),
        MpcCircuitError::WireConsumedButNotProduced { wire: WireId(60) }
    ));
}

#[test]
fn checks_come_in_order() {
    // Unsound before everything else but emptiness, and a missing producer before a cycle.
    let ops = vec![
        MockOp::Local(vec![], WireId(1)),
        MockOp::Local(vec![], WireId(1)),
    ];
    assert!(matches!(refusal(ops, UNSOUND), MpcCircuitError::CircuitUnsound));
    assert!(matches!(refusal(vec![], UNSOUND), MpcCircuitError::EmptyCircuit));
    let ops = vec![
        MockOp::Local(vec![WireId(1)], WireId(1)),
        MockOp::Local(vec![WireId(9)], WireId(2)),
    ];
    assert!(matches!(
        refusal(ops, MOCK),
        MpcCircuitError::WireConsumedButNotProduced { wire: WireId(9) }
    ));
    let ops = vec![MockOp::Local(vec![WireId(1)], WireId(1))];
    assert!(matches!(refusal(ops, MOCK), MpcCircuitError::CircuitCyclic));
}

#[test]
fn errors_in_words() {
    let wire = WireId(12);
    let cases = vec![
        (MpcCircuitError::CircuitUnsound, "The provided circuit is not sound"),
        (
            MpcCircuitError::WireProducedManyTimes { wire },
            "Wire 12 produced multiple times",
        ),
        (
            MpcCircuitError::WireConsumedButNotProduced { wire },
            "Wire 12 is consumed but it is never produced",
        ),
        (MpcCircuitError::CircuitCyclic, "Circuit is cyclic"),
        (MpcCircuitError::EmptyCircuit, "Circuit is empty"),
    ];
    for (error, words) in cases {
        assert_eq!(error.message(), words);
    }
    assert_eq!(WireId(1204).display(), "1204");
    assert_eq!(WireId(0).display(), "0");
}

#[test]
fn rounds_of_a_small_additive_circuit() {
    let ops = vec![
        AdditiveOperation::Input { party_id: 0, output: WireId(0) },
        AdditiveOperation::Input { party_id: 1, output: WireId(1) },
        AdditiveOperation::Add { left: WireId(0), right: WireId(1), output: WireId(2) },
    ];
    let circuit = MpcCircuit::new(ops, AdditiveScheme::<100>).unwrap();
    assert_eq!(circuit.num_offline_rounds() + circuit.num_online_rounds(), circuit.num_total_rounds());
    assert_eq!(circuit.num_offline_rounds(), circuit.offline_rounds().len());
    assert_eq!(circuit.num_online_rounds(), circuit.online_rounds().len());
    assert_eq!(circuit.num_online_rounds(), 2);
    assert_eq!(circuit.num_total_rounds(), 3);
    assert_eq!(circuit.get_input_operation_wire_ids_of_party(0), vec![WireId(0)]);
    assert_eq!(circuit.get_input_operation_wire_ids_of_party(1), vec![WireId(1)]);
    assert_eq!(circuit.get_input_operation_wire_ids_of_party(2), vec![]);
}

#[test]
fn every_operation_has_one_place() {
    let ops = vec![
        MockOp::Network(vec![WireId(3)], WireId(4)),
        MockOp::Input(1, WireId(5)),
        MockOp::Local(vec![WireId(4), WireId(5)], WireId(6)),
        MockOp::Local(vec![], WireId(3)),
        MockOp::Network(vec![WireId(6), WireId(4)], WireId(7)),
    ];
    let circuit = MpcCircuit::new(ops.clone(), MOCK).unwrap();
    let mut seen = Vec::new();
    for round in circuit.offline_rounds().iter().chain(circuit.online_rounds()) {
        seen.extend_from_slice(round.local_operations());
        seen.extend_from_slice(round.network_operations());
    }
    assert_eq!(seen.len(), ops.len());
    for op in &ops {
        assert_eq!(seen.iter().filter(|other| *other == op).count(), 1);
    }
    // No wire is consumed before it is produced.
    let mut produced = Vec::new();
    for op in &seen {
        for wire in op.inputs() {
            assert!(produced.contains(&wire));
        }
        produced.extend(op.outputs());
    }
}

#[test]
fn operation_waits_for_the_network_of_its_round() {
    // The last operation becomes ready with a local operation, but it also needs what a network
    // operation of the same round produces.
    let ops = vec![
        MockOp::Local(vec![], WireId(0)),
        MockOp::Network(vec![WireId(0)], WireId(1)),
        MockOp::Local(vec![], WireId(2)),
        MockOp::Local(vec![WireId(2)], WireId(3)),
        MockOp::Local(vec![WireId(1), WireId(3)], WireId(4)),
    ];
    let circuit = MpcCircuit::new(ops, MOCK).unwrap();
    let rounds = circuit.offline_rounds();
    assert_eq!(circuit.num_online_rounds(), 0);
    let places: Vec<usize> = (0..rounds.len())
        .filter(|k| {
            rounds[*k].local_operations().iter().any(|op| op.outputs() == vec![WireId(4)])
        })
        .collect();
    let network: Vec<usize> = (0..rounds.len())
        .filter(|k| {
            rounds[*k].network_operations().iter().any(|op| op.outputs() == vec![WireId(1)])
        })
        .collect();
    assert_eq!(places.len(), 1);
    assert_eq!(network.len(), 1);
    assert!(places[0] > network[0]);
}

#[test]
fn party_must_be_one_of_all() {
    let ops = vec![MockOp::Local(vec![], WireId(0))];
    let circuit = MpcCircuit::new(ops.clone(), MOCK).unwrap();
    let error = match MpcConfig::new(3, 3, circuit) {
        Err(error) => error,
        Ok(_) => panic!("Expected error"),
    };
    assert_eq!(error, MpcConfigError::InvalidPartyId);
    assert_eq!(error.message(), "`my_id` must be less than `n_parties`");
    let circuit = MpcCircuit::new(ops, MOCK).unwrap();
    let config = MpcConfig::new(2, 3, circuit).unwrap();
    assert_eq!(config.my_id(), 2);
    assert_eq!(config.n_parties(), 3);
    assert!(config.scheme().sound);
    assert_eq!(config.circuit().num_total_rounds(), 1);
}
