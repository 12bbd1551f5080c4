//! Additive secret sharing.

use std::collections::{HashMap, VecDeque};

use mpc_core::example::additive::{
    add_mod, sum_mod, AdditiveContext, AdditiveOperation, AdditivePending, AdditiveScheme,
};
use mpc_core::example::wire_types::{infer_wire_types, WireType};
use mpc_core::mpc::{
    Exchange, ExecutionContext, ExecutionContextError, ExecutionState, MpcCircuit, MpcConfig,
    MpcScheme, Operation, Round, Step, WireId,
};
use mpc_core::networking::network::other_parties;
use mpc_core::networking::secure_mesh::mesh_network::{
    message, split_message, MeshBuilder, Received, Sent,
};
use mpc_core::networking::secure_mesh::{KeyExchange, MeshNetwork, Roster, SigningIdentity};

fn input(party_id: usize, output: usize) -> AdditiveOperation {
    AdditiveOperation::Input { party_id, output: WireId(output) }
}

fn random(output: usize) -> AdditiveOperation {
    AdditiveOperation::GenRandom { output: WireId(output) }
}

fn add(left: usize, right: usize, output: usize) -> AdditiveOperation {
    AdditiveOperation::Add {
        left: WireId(left),
        right: WireId(right),
        output: WireId(output),
    }
}

fn open_wire(input: usize, output: usize) -> AdditiveOperation {
    AdditiveOperation::Reveal { input: WireId(input), output: WireId(output) }
}

type Execution<const M: u64> = ExecutionContext<AdditiveScheme<M>>;

/// Executions of all parties over a network in memory.
fn parties<const M: u64>(ops: &[AdditiveOperation], n: usize) -> Vec<Execution<M>> {
    (0..n)
        .map(|i| {
            let circuit = MpcCircuit::new(ops.to_vec(), AdditiveScheme::<M>).unwrap();
            let config = MpcConfig::new(i, n, circuit).unwrap();
            ExecutionContext::new(config, n, i).unwrap()
        })
        .collect()
}

fn shake_all<const M: u64>(all: &mut [Execution<M>]) {
    let plan = [5, 6, 7];
    let sent: Vec<_> = all.iter().map(|exec| exec.begin_handshake(&plan).unwrap()).collect();
    for (i, exec) in all.iter_mut().enumerate() {
        let hashes = sent[i]
            .request
            .iter()
            .map(|request| vec![sent[request.from].digest.clone()])
            .collect();
        exec.handshake(&sent[i], hashes).unwrap();
    }
}

/// Carries what the parties send to those who await it.
fn carry<const M: u64>(exchanges: Vec<Exchange<AdditiveScheme<M>>>) -> Vec<Vec<Vec<u64>>> {
    let mut wires: HashMap<(usize, usize), VecDeque<u64>> = HashMap::new();
    for (from, exchange) in exchanges.iter().enumerate() {
        for request in &exchange.send {
            wires
                .entry((from, request.to))
                .or_default()
                .push_back(*request.data);
        }
    }
    let data = exchanges
        .iter()
        .enumerate()
        .map(|(to, exchange)| {
            exchange
                .receive
                .iter()
                .map(|request| {
                    let wire = wires.get_mut(&(request.from, to)).unwrap();
                    (0..request.count.unwrap()).map(|_| wire.pop_front().unwrap()).collect()
                })
                .collect()
        })
        .collect();
    assert!(wires.values().all(|wire| wire.is_empty()));
    data
}

/// Runs a phase of all parties in step.
fn run_all<const M: u64>(
    all: &mut [Execution<M>],
    start: fn(&mut Execution<M>) -> Result<Step<AdditiveScheme<M>>, ExecutionContextError>,
) {
    let mut steps: Vec<_> = all.iter_mut().map(|exec| start(exec).unwrap()).collect();
    loop {
        let mut exchanges = Vec::new();
        for step in steps {
            if let Step::Exchange(exchange) = step {
                exchanges.push(exchange);
            }
        }
        if exchanges.is_empty() {
            return;
        }
        assert_eq!(exchanges.len(), all.len());
        steps = carry(exchanges)
            .into_iter()
            .zip(all.iter_mut())
            .map(|(data, exec)| exec.resume(data, 10, 20).unwrap())
            .collect();
    }
}

/// A network of the party `my_id` whose channels are the numbers of the peers.
fn mesh(my_id: usize, n: usize) -> MeshNetwork<usize> {
    let identity = |party: usize| SigningIdentity::from_secret([party as u8 + 1; 32]);
    let roster = Roster::new(my_id, (0..n).map(|party| identity(party).public_key()).collect());
    let mut builder = MeshBuilder::new(&roster);
    for peer in other_parties(n, my_id) {
        let mine = KeyExchange::with_secret([31; 32]);
        let theirs = KeyExchange::with_secret([32; 32]);
        let (my_key, their_key) = (mine.public_key(), theirs.public_key());
        let signature = theirs.agree(&identity(peer), &my_key).signature();
        let agreement = mine.agree(&identity(my_id), &their_key);
        let (place, _) = roster.authenticate(peer, agreement, &signature).ok().unwrap();
        if peer < my_id {
            builder.connect(place, peer);
        } else {
            builder.accept(place, peer).unwrap();
        }
    }
    builder.finish()
}

/// Carries what the parties send through their meshes, in one message to each peer.
fn carry_in_messages<const M: u64>(
    exchanges: &[Exchange<AdditiveScheme<M>>],
) -> Vec<Vec<Vec<u64>>> {
    let n = exchanges.len();
    let mut meshes: Vec<MeshNetwork<usize>> = (0..n).map(|party| mesh(party, n)).collect();
    let mut messages: HashMap<(usize, usize), Vec<u64>> = HashMap::new();
    for (from, exchange) in exchanges.iter().enumerate() {
        let plans = meshes[from].begin_send_many(&exchange.send).unwrap();
        let mut sent = Vec::new();
        for plan in plans {
            let objects: Vec<u64> =
                message(&exchange.send, &plan.items).into_iter().copied().collect();
            let len = 8 * objects.len();
            messages.insert((from, plan.channel), objects);
            sent.push(Sent { plan, len });
        }
        assert_eq!(meshes[from].finish_send_many(sent), 8 * exchange.send.len());
    }
    let mut data = Vec::new();
    for (to, exchange) in exchanges.iter().enumerate() {
        let plans = meshes[to].begin_recv_many(&exchange.receive).unwrap();
        let mut received = Vec::new();
        for plan in plans {
            let objects = messages.remove(&(plan.channel, to)).unwrap();
            let len = 8 * objects.len();
            let batches = split_message(objects, &plan.items, 0).unwrap();
            assert_eq!(batches.len(), plan.items.len());
            received.push(Received { plan, batches, len });
        }
        let (batches, _) = meshes[to].finish_recv_many(&exchange.receive, received);
        for (request, batch) in exchange.receive.iter().zip(&batches) {
            assert_eq!(request.check(batch.len()), Ok(()));
        }
        data.push(batches);
    }
    assert!(messages.is_empty());
    data
}

#[test]
fn same_operations_give_the_same_rounds() {
    let ops = [input(0, 0), random(1), add(0, 1, 2), open_wire(1, 3), open_wire(2, 4)];
    let words = || {
        let circuit = MpcCircuit::new(ops.to_vec(), AdditiveScheme::<7>).unwrap();
        let rounds = circuit.offline_rounds().iter().chain(circuit.online_rounds());
        rounds
            .map(|round| {
                format!("{:?} {:?}", round.local_operations(), round.network_operations())
            })
            .collect::<Vec<String>>()
    };
    assert_eq!(words().len(), 3);
    assert_eq!(words(), words());
}

type Phase = Vec<(Vec<AdditiveOperation>, Vec<AdditiveOperation>)>;

fn from_rounds(offline: Phase, online: Phase) -> MpcCircuit<AdditiveScheme<7>> {
    let rounds = |phase: Phase| {
        phase
            .into_iter()
            .map(|(local, network)| Round::from_operations(local, network))
            .collect()
    };
    MpcCircuit::from_rounds(AdditiveScheme::<7>, rounds(offline), rounds(online))
}

#[test]
fn circuits_from_rounds() {
    let offline = || vec![(vec![random(1)], vec![open_wire(1, 3)])];
    let online = || {
        vec![
            (vec![], vec![input(0, 0)]),
            (vec![add(0, 1, 2), add(2, 2, 5)], vec![open_wire(5, 4), open_wire(0, 6)]),
        ]
    };
    let circuit = from_rounds(offline(), online());
    assert!(circuit.can_run());
    assert_eq!((circuit.num_offline_rounds(), circuit.num_online_rounds()), (1, 2));
    assert_eq!(circuit.online_rounds()[1].local_operations()[1].outputs(), vec![WireId(5)]);
    assert_eq!(circuit.get_input_operation_wire_ids_of_party(0), vec![WireId(0)]);
    assert!(from_rounds(vec![], vec![]).can_run());
    // Local operations may wait for the exchange, and inputs may stand in the offline phase.
    assert!(from_rounds(vec![], vec![(vec![], vec![random(0)])]).can_run());
    assert!(from_rounds(vec![(vec![], vec![input(0, 0)])], vec![]).can_run());

    // A wire that nothing produces before it is consumed.
    let circuit = from_rounds(vec![], online());
    assert_eq!(circuit.num_online_rounds(), 2);
    assert!(!circuit.can_run());
    assert!(!from_rounds(offline(), online().into_iter().rev().collect()).can_run());
    assert!(!from_rounds(vec![], vec![(vec![add(0, 0, 1), random(0)], vec![])]).can_run());
    let together = vec![(vec![], vec![input(0, 0), open_wire(0, 1)])];
    assert!(!from_rounds(vec![], together).can_run());
    // A wire that is produced twice.
    assert!(!from_rounds(offline(), vec![(vec![random(1)], vec![])]).can_run());
    assert!(!from_rounds(vec![], vec![(vec![random(0)], vec![input(0, 0)])]).can_run());
    assert!(!from_rounds(vec![], vec![(vec![], vec![input(0, 0), input(1, 0)])]).can_run());
    // An operation that cannot do without an exchange.
    assert!(!from_rounds(vec![], vec![(vec![input(0, 0)], vec![])]).can_run());

    let config = MpcConfig::from_parts(3, 2, from_rounds(vec![], vec![]));
    assert_eq!((config.my_id(), config.n_parties()), (3, 2));
}

#[test]
fn half_done_phase_starts_again() {
    let mut all = parties::<1000>(&[input(0, 0), open_wire(0, 1)], 1);
    shake_all(&mut all);
    run_all(&mut all, |exec| exec.do_offline());
    all[0].prepare_input(vec![(WireId(0), 7)]).unwrap();
    let exec = &mut all[0];
    assert!(matches!(exec.do_online(), Ok(Step::Exchange(_))));
    assert!(matches!(exec.resume(vec![], 0, 0), Ok(Step::Exchange(_))));
    // The phase starts again with its first round, whose output has a value by now.
    assert!(matches!(exec.do_online(), Ok(Step::Exchange(_))));
    let error = exec.resume(vec![], 0, 0).err().unwrap();
    assert_eq!(
        error.message(),
        "Scheme error during scheme phase: a wire has a value already"
    );
    assert_eq!(*exec.execution_state(), ExecutionState::ReadyOnline);
    assert_eq!(exec.get_wire(WireId(0)), Some(&7));
}

#[test]
fn half_done_local_operations_fail_again() {
    let mut all = parties::<1000>(&[random(0), open_wire(0, 1)], 2);
    shake_all(&mut all);
    let exec = &mut all[0];
    assert!(matches!(exec.do_offline(), Ok(Step::Exchange(_))));
    let share = *exec.get_wire(WireId(0)).unwrap();
    let error = exec.do_offline().err().unwrap();
    assert_eq!(
        error.message(),
        "Scheme error during scheme phase: a wire has a value already"
    );
    assert_eq!(exec.get_wire(WireId(0)), Some(&share));
}

#[test]
fn requests_of_a_round_share_messages() {
    let ops = [input(0, 0), input(0, 1), add(0, 1, 2), open_wire(2, 3), open_wire(1, 4)];
    let mut all = parties::<1000>(&ops, 2);
    shake_all(&mut all);
    run_all(&mut all, |exec| exec.do_offline());
    all[0].prepare_input(vec![(WireId(0), 10), (WireId(1), 20)]).unwrap();
    all[1].prepare_input(vec![]).unwrap();
    let mut steps: Vec<_> = all.iter_mut().map(|exec| exec.do_online().unwrap()).collect();
    let mut rounds = 0;
    loop {
        let mut exchanges = Vec::new();
        for step in steps.drain(..) {
            match step {
                Step::Exchange(exchange) => exchanges.push(exchange),
                Step::Finished { sent, received } => {
                    assert_eq!((sent, received), (3 * rounds, 5 * rounds));
                }
            }
        }
        if exchanges.is_empty() {
            break;
        }
        let data = carry_in_messages(&exchanges);
        for (data, exec) in data.into_iter().zip(all.iter_mut()) {
            assert!(exec.can_count(3, 5));
            steps.push(exec.resume(data, 3, 5).unwrap());
        }
        rounds += 1;
    }
    assert_eq!(rounds, 2);
    assert_eq!(values(&all, 3), vec![30, 30]);
    assert_eq!(values(&all, 4), vec![20, 20]);
}

/// Runs a circuit with the given inputs of each party.
fn compute<const M: u64>(
    ops: &[AdditiveOperation],
    inputs: Vec<Vec<(WireId, u64)>>,
) -> Vec<Execution<M>> {
    let mut all = parties::<M>(ops, inputs.len());
    shake_all(&mut all);
    run_all(&mut all, |exec| exec.do_offline());
    for (exec, mine) in all.iter_mut().zip(inputs) {
        exec.prepare_input(mine).unwrap();
    }
    run_all(&mut all, |exec| exec.do_online());
    all
}

fn values<const M: u64>(all: &[Execution<M>], wire: usize) -> Vec<u64> {
    all.iter().map(|exec| *exec.get_wire(WireId(wire)).unwrap()).collect()
}

fn context<const M: u64>(my_id: usize, n_players: usize) -> AdditiveContext {
    let circuit = MpcCircuit::new(vec![random(0)], AdditiveScheme::<M>).unwrap();
    AdditiveScheme::<M>.establish_context(my_id, n_players, &circuit).unwrap()
}

#[test]
fn test_operation_properties() {
    let op_input = AdditiveOperation::Input {
        party_id: 1,
        output: WireId(0),
    };
    assert_eq!(op_input.get_input_party_id(), Some(1));
    assert!(op_input.is_input());
    assert_eq!(op_input.inputs().len(), 0);
    assert_eq!(op_input.outputs(), vec![WireId(0)]);

    let op_add = AdditiveOperation::Add {
        left: WireId(0),
        right: WireId(1),
        output: WireId(2),
    };
    assert_eq!(op_add.get_input_party_id(), None);
    assert!(!op_add.is_input());
    assert_eq!(op_add.inputs(), vec![WireId(0), WireId(1)]);
    assert_eq!(op_add.outputs(), vec![WireId(2)]);

    let op_reveal = AdditiveOperation::Reveal {
        input: WireId(2),
        output: WireId(3),
    };
    assert_eq!(op_reveal.inputs(), vec![WireId(2)]);
    assert_eq!(op_reveal.outputs(), vec![WireId(3)]);
}

#[test]
fn test_scheme_locality() {
    let scheme = AdditiveScheme::<1000>;
    assert!(!scheme.is_operation_local(&AdditiveOperation::Input {
        party_id: 0,
        output: WireId(0)
    }));
    assert!(scheme.is_operation_local(&AdditiveOperation::Add {
        left: WireId(0),
        right: WireId(1),
        output: WireId(2)
    }));
    assert!(!scheme.is_operation_local(&AdditiveOperation::Reveal {
        input: WireId(2),
        output: WireId(3)
    }));
    assert!(scheme.is_operation_local(&AdditiveOperation::GenRandom { output: WireId(4) }));
}

#[test]
fn test_is_circuit_sound() {
    let scheme = AdditiveScheme::<1000>;

    let ops = vec![
        AdditiveOperation::Input {
            party_id: 0,
            output: WireId(0),
        },
        AdditiveOperation::Input {
            party_id: 1,
            output: WireId(1),
        },
        AdditiveOperation::Add {
            left: WireId(0),
            right: WireId(1),
            output: WireId(2),
        },
        AdditiveOperation::Reveal {
            input: WireId(2),
            output: WireId(3),
        },
    ];
    assert!(scheme.is_circuit_sound(&ops));

    let ops = vec![
        AdditiveOperation::Input {
            party_id: 0,
            output: WireId(0),
        },
        AdditiveOperation::Reveal {
            input: WireId(0),
            output: WireId(1),
        },
        AdditiveOperation::Add {
            left: WireId(1),
            right: WireId(0),
            output: WireId(2),
        },
    ];
    assert!(scheme.is_circuit_sound(&ops));

    let scheme_0 = AdditiveScheme::<0>;
    let ops = vec![AdditiveOperation::Input {
        party_id: 0,
        output: WireId(0),
    }];
    assert!(!scheme_0.is_circuit_sound(&ops));
}

#[test]
fn test_additive_mpc_3_parties() {
    let ops = vec![
        input(0, 0),
        input(1, 1),
        input(2, 2),
        add(0, 1, 3),
        add(3, 2, 4),
        open_wire(4, 5),
    ];
    let all = compute::<100>(
        &ops,
        vec![
            vec![(WireId(0), 10)],
            vec![(WireId(1), 20)],
            vec![(WireId(2), 30)],
        ],
    );
    for (i, exec) in all.iter().enumerate() {
        assert_eq!(*exec.execution_state(), ExecutionState::Finished);
        let mut final_result = None;
        exec.dump_wires_with_filter(|w| {
            if *w == 60 {
                final_result = Some(*w);
            }
            true
        });
        assert_eq!(final_result, Some(60), "Party {} failed to compute correct sum", i);
    }
    assert_eq!(values(&all, 5), vec![60, 60, 60]);
}

#[test]
fn shares_add_up_to_the_input() {
    let ops = vec![input(1, 0), input(0, 1), add(0, 1, 2), open_wire(2, 3)];
    let all = compute::<97>(
        &ops,
        vec![vec![(WireId(1), 50)], vec![(WireId(0), 1000)], vec![]],
    );
    assert_eq!(sum_mod(&values(&all, 0), 97), 1000 % 97);
    assert_eq!(sum_mod(&values(&all, 1), 97), 50);
    assert_eq!(sum_mod(&values(&all, 2), 97), (1000 + 50) % 97);
    assert_eq!(values(&all, 3), vec![(1000 + 50) % 97; 3]);
}

#[test]
fn random_values_are_the_same_at_all_parties_once_revealed() {
    let ops = vec![random(0), random(1), add(0, 1, 2), open_wire(2, 3), open_wire(0, 4)];
    let all = compute::<1000>(&ops, vec![vec![], vec![], vec![], vec![]]);
    assert!(values(&all, 0).iter().all(|share| *share < 1000));
    let sum = sum_mod(&values(&all, 0), 1000);
    assert_eq!(values(&all, 4), vec![sum; 4]);
    let both = add_mod(sum, sum_mod(&values(&all, 1), 1000), 1000);
    assert_eq!(values(&all, 3), vec![both; 4]);
}

#[test]
fn large_modulus_does_not_overflow() {
    const M: u64 = u64::MAX;
    let ops = vec![input(0, 0), input(1, 1), add(0, 1, 2), open_wire(2, 3)];
    let all = compute::<M>(
        &ops,
        vec![vec![(WireId(0), M - 1)], vec![(WireId(1), M - 2)]],
    );
    assert_eq!(values(&all, 3), vec![M - 3, M - 3]);
    assert_eq!(add_mod(u64::MAX, u64::MAX, 10), 0);
    assert_eq!(sum_mod(&[u64::MAX, u64::MAX, 5], 10), 5);
    assert_eq!(sum_mod(&[], 10), 0);
}

#[test]
fn one_party_alone() {
    let ops = vec![input(0, 0), open_wire(0, 1)];
    let all = compute::<100>(&ops, vec![vec![(WireId(0), 342)]]);
    assert_eq!(values(&all, 0), vec![42]);
    assert_eq!(values(&all, 1), vec![42]);
}

#[test]
fn operation_that_needs_a_network_value_of_its_round_runs() {
    let ops = vec![random(0), open_wire(0, 1), random(2), add(2, 2, 3), add(1, 3, 4)];
    let all = compute::<50>(&ops, vec![vec![], vec![]]);
    for (i, value) in values(&all, 4).into_iter().enumerate() {
        assert_eq!(value, add_mod(values(&all, 1)[i], values(&all, 3)[i], 50));
    }
}

#[test]
fn inputter_keeps_what_is_missing() {
    let scheme = AdditiveScheme::<100>;
    let mut context = context::<100>(1, 4);
    scheme.prepare_user_input(&mut context, vec![(WireId(8), 730), (WireId(9), 5)]);
    let (pending, sent) = scheme.share_input(&mut context, WireId(8), vec![90, 80, 70]);
    assert!(matches!(
        pending,
        AdditivePending::Input { is_inputter: true, my_share: Some(90) }
    ));
    let to: Vec<usize> = sent.iter().map(|request| request.to).collect();
    assert_eq!(to, vec![0, 2, 3]);
    let shares: Vec<u64> = sent.iter().map(|request| *request.data).collect();
    assert_eq!(shares, vec![90, 80, 70]);
    assert_eq!((90 + 90 + 80 + 70) % 100, 730 % 100);

    // The input is used up; what was not given counts as zero.
    let (pending, _) = scheme.share_input(&mut context, WireId(8), vec![1, 0, 0]);
    assert!(matches!(
        pending,
        AdditivePending::Input { is_inputter: true, my_share: Some(99) }
    ));
}

#[test]
fn network_phases_ask_the_right_parties() {
    let scheme = AdditiveScheme::<100>;
    let mut context = context::<100>(1, 3);
    let phase = scheme.do_network_phase(&mut context, &input(2, 0), vec![]).unwrap();
    assert!(phase.send_request.is_empty());
    assert_eq!(phase.receive_request.len(), 1);
    assert_eq!(phase.receive_request[0].from, 2);
    assert_eq!(phase.receive_request[0].count, Some(1));
    let result = scheme.do_finalize_phase(&mut context, phase.pending, vec![345]).unwrap();
    assert_eq!(result.0, vec![45]);

    let phase = scheme.do_network_phase(&mut context, &open_wire(0, 1), vec![&70]).unwrap();
    let to: Vec<usize> = phase.send_request.iter().map(|request| request.to).collect();
    assert_eq!(to, vec![0, 2]);
    assert!(phase.send_request.iter().all(|request| *request.data == 70));
    let from: Vec<usize> = phase.receive_request.iter().map(|request| request.from).collect();
    assert_eq!(from, vec![0, 2]);
    let result = scheme.do_finalize_phase(&mut context, phase.pending, vec![60, 50]).unwrap();
    assert_eq!(result.0, vec![80]);

    let phase = scheme.do_network_phase(&mut context, &add(0, 1, 2), vec![&70, &60]).unwrap();
    assert!(phase.send_request.is_empty() && phase.receive_request.is_empty());
    let result = scheme.do_finalize_phase(&mut context, phase.pending, vec![]).unwrap();
    assert_eq!(result.0, vec![30]);

    let phase = scheme.do_network_phase(&mut context, &random(5), vec![]).unwrap();
    assert!(phase.send_request.is_empty() && phase.receive_request.is_empty());
    let result = scheme.do_finalize_phase(&mut context, phase.pending, vec![]).unwrap();
    assert!(result.0[0] < 100);
}

#[test]
fn random_shares_are_not_all_alike() {
    let scheme = AdditiveScheme::<1_000_000_007>;
    let mut context = context::<1_000_000_007>(0, 2);
    let drawn: Vec<u64> = (0..32)
        .map(|_| {
            let phase = scheme.do_network_phase(&mut context, &random(0), vec![]).unwrap();
            scheme.do_finalize_phase(&mut context, phase.pending, vec![]).unwrap().0[0]
        })
        .collect();
    assert!(drawn.iter().all(|share| *share < 1_000_000_007));
    assert!(drawn.iter().any(|share| *share != drawn[0]));
}

#[test]
fn wires_are_listed_in_ascending_order() {
    let ops = vec![input(0, 9), input(0, 4), input(0, 7), input(0, 1)];
    let all = compute::<100>(
        &ops,
        vec![vec![
            (WireId(9), 90),
            (WireId(4), 40),
            (WireId(7), 70),
            (WireId(1), 10),
        ]],
    );
    let listed: Vec<(usize, u64)> = all[0]
        .dump_wires_with_filter(|w| *w != 40)
        .into_iter()
        .map(|(id, w)| (id, *w))
        .collect();
    assert_eq!(listed, vec![(1, 10), (7, 70), (9, 90)]);
    assert!(all[0].dump_wires_with_filter(|_| false).is_empty());
}

#[test]
fn wire_types_of_a_circuit() {
    let ops = vec![
        add(1, 2, 3),
        add(0, 1, 4),
        open_wire(4, 2),
        open_wire(0, 1),
        input(0, 0),
        random(5),
        add(5, 3, 6),
        add(7, 7, 7),
        add(8, 0, 9),
    ];
    let types = infer_wire_types(&ops);
    assert_eq!(types.get(&0), Some(&WireType::Shared));
    assert_eq!(types.get(&1), Some(&WireType::Public));
    assert_eq!(types.get(&2), Some(&WireType::Public));
    assert_eq!(types.get(&3), Some(&WireType::Public));
    assert_eq!(types.get(&4), Some(&WireType::Shared));
    assert_eq!(types.get(&5), Some(&WireType::Shared));
    assert_eq!(types.get(&6), Some(&WireType::Shared));
    assert_eq!(types.get(&7), None);
    assert_eq!(types.get(&9), None);
}

#[test]
fn values_stay_below_the_modulus() {
    let ops = vec![input(0, 0), random(1), add(0, 1, 2), open_wire(2, 3), add(3, 3, 4)];
    let all = compute::<13>(&ops, vec![vec![(WireId(0), 1000)], vec![], vec![]]);
    for exec in &all {
        assert!(exec.dump_wires_with_filter(|w| *w >= 13).is_empty());
        assert_eq!(exec.dump_wires_with_filter(|_| true).len(), 5);
    }
}
