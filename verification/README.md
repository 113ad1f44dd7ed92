# qrap

Core logic of the QRAP node (quantum-resistant rollup with Orbital BFT
consensus, Celestia data availability and FPGA proving), written in Verus
with its behaviour stated in contracts and proved.

## Layout

- `src/` — the verified library:
  - `crypto` — placeholder Poseidon (tagged SHA3-256), LWE commitments,
    ML-KEM/ML-DSA placeholders;
  - `fee` — fee distribution (35/25/20/15/5 %, FPGA bonus) and its governance
    timelock;
  - `smt`, `entries`, `utxo` — sorted-leaf Merkle tree, hash-keyed
    association lists, and the epoch UTXO engine (nullifier sets, pruning);
  - `consensus` — Orbital BFT round state machine, block hashing, quorum;
  - `da` (with `da::celestia`) — namespaces, blobs, the in-memory DA client's
    bookkeeping, Blobstream header-chain and inclusion checks;
  - `net` — mesh frames, HTTP head parsing, testnet identities;
  - `field`, `limbs` — 256-bit BN254 field arithmetic of the F1 host;
  - `fpga` — power states, proof hash chain, TMR voting, checkpoint log;
  - `stark` — spend proofs and the CPU PLONK prover;
  - `sim` — simulation metrics and transaction generation;
  - `bytes` — byte-order helpers.
- `tests/` — tests of the library.
- `app/` — the node program: command line, sockets, sled persistence,
  async event loops, serde encodings, and the parts that use floating point.

Each module states its laws as public proof functions (`lemma_*`).
