# mpc-core

A core for multi-party computation: circuits of operations over wires, the engine by which each
party runs them, and the rules of the channels between the parties. The library is verified with
Verus.

- `src/mpc`: schemes (`MpcScheme`), circuits that are sorted into rounds (`MpcCircuit`), and the
  execution of a circuit by one party (`ExecutionContext`), a state machine that asks for exchanges
  and is given what they brought; `history` follows an execution operation by operation.
- `src/networking`: requests to a network, and the secure mesh: frames of an encrypted channel, the
  handshake that authenticates both ends, the text form of keys, who takes which place, and the
  channels of a party with the messages that requests share.
- `src/example`: additive secret sharing over the integers modulo `M`, and what the executions of
  all parties compute together.
- `app`: the asynchronous side in ordinary Rust: the `Network` trait, a TCP mesh that implements it,
  and the driver of an execution.
- `tests`: tests of the library.

What the library takes from other crates (ChaCha20-Poly1305, X25519, Ed25519, SHA3-512, base64,
random numbers, grouping and sorting) stands behind small functions whose doc comments say what is
relied on.
