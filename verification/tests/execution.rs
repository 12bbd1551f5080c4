//! The execution of a circuit by one party.

use std::convert::Infallible;

use mpc_core::mpc::{
    Describe, ExecutionContext, ExecutionContextError, ExecutionState, FinalizePhaseOutput,
    MpcCircuit, MpcConfig, MpcScheme, NetworkPhaseOutput, Operation, Step, WireId,
};
use vstd::seq::Seq;

#[derive(Debug, Clone, PartialEq, Eq)]
enum MockOp {
    Input(usize, WireId),
}

impl Operation for MockOp {
    fn input_party(&self) -> Option<usize> {
        unreachable!()
    }

    fn input_wires(&self) -> Seq<WireId> {
        unreachable!()
    }

    fn output_wires(&self) -> Seq<WireId> {
        unreachable!()
    }

    fn input_yields_one_output(&self) {}

    fn get_input_party_id(&self) -> Option<usize> {
        match self {
            MockOp::Input(party, _) => Some(*party),
        }
    }

    fn inputs(&self) -> Vec<WireId> {
        vec![]
    }

    fn outputs(&self) -> Vec<WireId> {
        match self {
            MockOp::Input(_, out) => vec![*out],
        }
    }
}

#[derive(Debug)]
struct Refusal;

impl Describe for Refusal {
    fn text(&self) -> Seq<char> {
        unreachable!()
    }

    fn describe(&self) -> String {
        "refused".to_string()
    }
}

#[derive(Debug, Clone)]
struct MockScheme {
    establishes: bool,
    finalizes: bool,
}

const MOCK: MockScheme = MockScheme { establishes: true, finalizes: true };

impl MpcScheme for MockScheme {
    type Context = ();
    type NetworkElement = ();
    type Wire = ();
    type Input = ();
    type Operation = MockOp;
    type Pending = ();
    type EstablishContextError = Refusal;
    type NetworkPhaseError = Infallible;
    type FinalizePhaseError = Refusal;

    fn sound(&self, _circuit: Seq<MockOp>) -> bool {
        unreachable!()
    }

    fn local(&self, _op: MockOp) -> bool {
        unreachable!()
    }

    fn usable(&self) -> bool {
        unreachable!()
    }

    fn established(
        &self,
        _my_id: usize,
        _n_players: usize,
        _circuit: MpcCircuit<Self>,
        _result: Result<(), Refusal>,
    ) -> bool {
        unreachable!()
    }

    fn prepared(&self, _before: (), _inputs: Seq<(WireId, ())>, _after: ()) -> bool {
        unreachable!()
    }

    fn network_phase(
        &self,
        _before: (),
        _op: MockOp,
        _inputs: Seq<()>,
        _after: (),
        _result: Result<NetworkPhaseOutput<Self>, Infallible>,
    ) -> bool {
        unreachable!()
    }

    fn accepts(&self, _pending: (), _data: Seq<()>) -> bool {
        unreachable!()
    }

    fn finalize_phase(
        &self,
        _before: (),
        _pending: (),
        _data: Seq<()>,
        _after: (),
        _result: Result<FinalizePhaseOutput<Self>, Refusal>,
    ) -> bool {
        unreachable!()
    }

    fn sound_is_usable(&self, _circuit: Seq<MockOp>) {}

    fn input_is_not_local(&self, _op: MockOp) {}

    fn network_phase_is_consistent(
        &self,
        _before: (),
        _op: MockOp,
        _inputs: Seq<()>,
        _after: (),
        _output: NetworkPhaseOutput<Self>,
    ) {
    }

    fn outputs_are_consistent(
        &self,
        _op: MockOp,
        _inputs: Seq<()>,
        _output: NetworkPhaseOutput<Self>,
        _data: Seq<()>,
        _result: FinalizePhaseOutput<Self>,
        _contexts: ((), (), (), ()),
    ) {
    }

    fn is_circuit_sound(&self, _circuit: &[MockOp]) -> bool {
        true
    }

    fn is_operation_local(&self, _op: &MockOp) -> bool {
        false
    }

    fn establish_context(
        &self,
        _my_id: usize,
        _n_players: usize,
        _circuit: &MpcCircuit<Self>,
    ) -> Result<(), Refusal> {
        if self.establishes {
            Ok(())
        } else {
            Err(Refusal)
        }
    }

    fn prepare_user_input(&self, _context: &mut (), _inputs: Vec<(WireId, ())>) {}

    fn do_network_phase(
        &self,
        _context: &mut (),
        _op: &MockOp,
        _inputs: Vec<&()>,
    ) -> Result<NetworkPhaseOutput<Self>, Infallible> {
        Ok(NetworkPhaseOutput {
            pending: (),
            send_request: vec![],
            receive_request: vec![],
        })
    }

    fn do_finalize_phase(
        &self,
        _context: &mut (),
        _pending: (),
        _network_data: Vec<()>,
    ) -> Result<FinalizePhaseOutput<Self>, Refusal> {
        if self.finalizes {
            Ok(FinalizePhaseOutput(vec![()]))
        } else {
            Err(Refusal)
        }
    }
}

fn setup_with(scheme: MockScheme, my_id: usize, n: usize) -> ExecutionContext<MockScheme> {
    let ops = vec![MockOp::Input(0, WireId(0))];
    let circuit = MpcCircuit::new(ops, scheme).unwrap();
    let config = MpcConfig::new(my_id, n, circuit).unwrap();
    ExecutionContext::new(config, n, my_id).unwrap()
}

fn setup(my_id: usize, n: usize) -> ExecutionContext<MockScheme> {
    setup_with(MOCK, my_id, n)
}

/// Shakes hands over a network that brings nothing.
fn shake(exec: &mut ExecutionContext<MockScheme>) -> Result<(), ExecutionContextError> {
    let handshake = exec.begin_handshake(&[1, 2, 3])?;
    exec.handshake(&handshake, vec![])
}

/// Runs a phase over a network that brings nothing.
fn run(
    exec: &mut ExecutionContext<MockScheme>,
    first: Result<Step<MockScheme>, ExecutionContextError>,
) -> Result<(), ExecutionContextError> {
    let mut step = first?;
    while let Step::Exchange(_) = step {
        step = exec.resume(vec![], 0, 0)?;
    }
    Ok(())
}

fn offline(exec: &mut ExecutionContext<MockScheme>) -> Result<(), ExecutionContextError> {
    let first = exec.do_offline();
    run(exec, first)
}

fn online(exec: &mut ExecutionContext<MockScheme>) -> Result<(), ExecutionContextError> {
    let first = exec.do_online();
    run(exec, first)
}

#[test]
fn test_handshake_mismatch() {
    let ops = vec![MockOp::Input(0, WireId(0))];
    let circuit = MpcCircuit::new(ops, MOCK).unwrap();
    let config = MpcConfig::new(0, 2, circuit).unwrap(); // expects 2
    let err = match ExecutionContext::new(config, 3, 0) {
        Err(e) => e,
        Ok(_) => panic!("Expected error"),
    }; // actual 3
    assert!(matches!(
        err,
        ExecutionContextError::InvalidConfiguration { .. }
    ));
}

#[test]
fn test_state_machine_order() {
    let mut exec = setup(0, 2);

    // Calling prepare_input before handshake/offline fails
    let err = match exec.prepare_input(vec![]) {
        Err(e) => e,
        Ok(_) => panic!("Expected error"),
    };
    assert!(matches!(err, ExecutionContextError::StateError { .. }));

    // Calling do_online before handshake/offline fails
    let err = match online(&mut exec) {
        Err(e) => e,
        Ok(_) => panic!("Expected error"),
    };
    assert!(matches!(err, ExecutionContextError::StateError { .. }));

    shake(&mut exec).unwrap();
    offline(&mut exec).unwrap();

    // Calling do_offline again fails
    let err = match offline(&mut exec) {
        Err(e) => e,
        Ok(_) => panic!("Expected error"),
    };
    assert!(matches!(err, ExecutionContextError::StateError { .. }));
}

#[test]
fn test_input_validation() {
    let mut exec = setup(0, 2); // input belongs to party 0
    shake(&mut exec).unwrap();
    offline(&mut exec).unwrap();

    // Missing inputs
    let err = match exec.prepare_input(vec![]) {
        Err(e) => e,
        Ok(_) => panic!("Expected error"),
    };
    assert!(matches!(err, ExecutionContextError::NotEnoughInputs));

    // Invalid wire id
    let err = match exec.prepare_input(vec![(WireId(0), ()), (WireId(99), ())]) {
        Err(e) => e,
        Ok(_) => panic!("Expected error"),
    };
    assert!(matches!(
        err,
        ExecutionContextError::InvalidInputWire { wire: WireId(99) }
    ));

    // Duplicate inputs
    let err = match exec.prepare_input(vec![(WireId(0), ()), (WireId(0), ())]) {
        Err(e) => e,
        Ok(_) => panic!("Expected error"),
    };
    assert!(matches!(
        err,
        ExecutionContextError::DuplicateInput { wire: WireId(0) }
    ));

    // Correct inputs
    exec.prepare_input(vec![(WireId(0), ())]).unwrap();
}

#[test]
fn party_id_must_match_the_network() {
    let ops = vec![MockOp::Input(0, WireId(0))];
    let circuit = MpcCircuit::new(ops, MOCK).unwrap();
    let config = MpcConfig::new(0, 2, circuit).unwrap();
    let error = match ExecutionContext::new(config, 2, 1) {
        Err(e) => e,
        Ok(_) => panic!("Expected error"),
    };
    assert_eq!(
        error.message(),
        "Invalid configuration: Mismatch in party ids or counts"
    );
}

#[test]
fn states_follow_each_other() {
    let mut exec = setup(0, 2);
    assert_eq!(*exec.execution_state(), ExecutionState::NewBorn);
    shake(&mut exec).unwrap();
    assert_eq!(*exec.execution_state(), ExecutionState::Handshaked);
    offline(&mut exec).unwrap();
    assert_eq!(*exec.execution_state(), ExecutionState::FinishedOffline);
    exec.prepare_input(vec![(WireId(0), ())]).unwrap();
    assert_eq!(*exec.execution_state(), ExecutionState::ReadyOnline);
    assert!(exec.get_wire(WireId(0)).is_none());
    online(&mut exec).unwrap();
    assert_eq!(*exec.execution_state(), ExecutionState::Finished);
    assert!(exec.get_wire(WireId(0)).is_some());
    assert!(exec.get_wire(WireId(1)).is_none());

    // Nothing is allowed in the end.
    for error in [
        shake(&mut exec).unwrap_err(),
        offline(&mut exec).unwrap_err(),
        exec.prepare_input(vec![]).unwrap_err(),
        online(&mut exec).unwrap_err(),
    ] {
        assert!(matches!(
            error,
            ExecutionContextError::StateError { state: ExecutionState::Finished, .. }
        ));
    }
}

#[test]
fn parties_must_have_the_same_plan() {
    let mut exec = setup(1, 3);
    let handshake = exec.begin_handshake(&[1, 2, 3]).unwrap();
    assert_eq!(handshake.digest.len(), 64);
    let from: Vec<usize> = handshake.request.iter().map(|request| request.from).collect();
    assert_eq!(from, vec![0, 2]);
    assert!(handshake.request.iter().all(|request| request.count == Some(1)));

    let same = vec![handshake.digest.clone()];
    let other = exec.begin_handshake(&[1, 2, 4]).unwrap();
    assert_ne!(handshake.digest, other.digest);
    let error = exec
        .handshake(&handshake, vec![same.clone(), vec![other.digest.clone()]])
        .unwrap_err();
    assert!(matches!(error, ExecutionContextError::PlanNotAgreed));
    assert_eq!(error.message(), "Plan not agreed between parties");
    assert_eq!(*exec.execution_state(), ExecutionState::NewBorn);

    exec.handshake(&handshake, vec![same.clone(), same]).unwrap();
    assert_eq!(*exec.execution_state(), ExecutionState::Handshaked);
}

#[test]
fn handshake_carries_the_digest() {
    let mut exec = setup(0, 2);
    let handshake = exec.begin_handshake_with(vec![1, 2]).unwrap();
    assert_eq!(handshake.digest, vec![1, 2]);
    assert_eq!(handshake.request.len(), 1);
    exec.handshake(&handshake, vec![vec![vec![1, 2]]]).unwrap();
    assert!(exec.begin_handshake_with(vec![1, 2]).is_err());
}

#[test]
fn digest_of_nothing() {
    let exec = setup(0, 1);
    let digest = exec.begin_handshake(&[]).unwrap().digest;
    let expected: [u8; 8] = [0xa6, 0x9f, 0x73, 0xcc, 0xa2, 0x3a, 0x9a, 0xc5];
    assert_eq!(&digest[..8], &expected);
}

#[test]
fn failing_scheme_is_reported() {
    let mut exec = setup_with(MockScheme { establishes: false, finalizes: true }, 0, 2);
    let error = shake(&mut exec).unwrap_err();
    assert_eq!(error.message(), "Scheme error during scheme phase: refused");
    assert_eq!(*exec.execution_state(), ExecutionState::NewBorn);

    let mut exec = setup_with(MockScheme { establishes: true, finalizes: false }, 0, 2);
    shake(&mut exec).unwrap();
    offline(&mut exec).unwrap();
    exec.prepare_input(vec![(WireId(0), ())]).unwrap();
    let error = online(&mut exec).unwrap_err();
    assert!(matches!(error, ExecutionContextError::SchemeError { .. }));
    assert_eq!(*exec.execution_state(), ExecutionState::ReadyOnline);
    assert!(exec.get_wire(WireId(0)).is_none());
}

#[test]
fn inputs_of_other_parties_are_refused() {
    let mut exec = setup(1, 2);
    shake(&mut exec).unwrap();
    offline(&mut exec).unwrap();
    let error = exec.prepare_input(vec![(WireId(0), ())]).unwrap_err();
    assert!(matches!(
        error,
        ExecutionContextError::InvalidInputWire { wire: WireId(0) }
    ));
    exec.prepare_input(vec![]).unwrap();
}

#[test]
fn execution_errors_in_words() {
    let wire = WireId(3);
    let cases = vec![
        (
            ExecutionContextError::StateError {
                op: "do_online".to_string(),
                state: ExecutionState::FinishedOffline,
            },
            "Execution state error: do_online not allowed in state FinishedOffline",
        ),
        (
            ExecutionContextError::NetworkError { source: "gone".to_string() },
            "Network error: gone",
        ),
        (ExecutionContextError::DuplicateInput { wire }, "Duplicate input for wire 3"),
        (
            ExecutionContextError::InvalidInputWire { wire },
            "Wire 3 is not an output of an input operation",
        ),
        (ExecutionContextError::NotEnoughInputs, "Not enough inputs provided"),
    ];
    for (error, words) in cases {
        assert_eq!(error.message(), words);
    }
}
