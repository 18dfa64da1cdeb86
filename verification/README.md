# attesta

A confidential payments layer with built-in compliance: shielded transfer
amounts, plus reusable zero-knowledge compliance attestations. The library is
written in Rust and verified with Verus.

- `src/` is the verified library.
  - `field`, `curve`, `encoding`, `bytes`: BLS12-381 scalars and points, and
    their byte encodings on the Soroban host.
  - `poseidon`, `note`, `merkle`: the protocol hash, notes with their
    commitments and nullifiers, and the commitment tree.
  - `number`: arithmetic modulo a prime, and a certificate that the order of
    the scalar field is one. This makes the hash's permutation injective.
  - `circuit`, `util`, `transfer`, `withdraw`, `layout`: circuits as lists of
    gates. A built circuit is satisfied by exactly the assignments that meet
    the transfer or withdraw relation.
  - `interfaces`, `host`, `store`, `zk_verifier`, `issuer_registry`,
    `attestation_registry`, `shielded_pool`: the contracts as state machines.
    What the ledger adds to a call (its time, who signed it) is an
    `Invocation`, other contracts are found by address in a `Store`, and token
    movements are returned as a `Payment`.
  - `shielded_pool::solvency`: the pool's balance is the sum of its unspent
    notes.
  - `prover`, `artifacts`, `hex_codec`, `text`, `cli`: from spend descriptions
    and the commitment log to proof bundles, and back; the published verifying
    and proving keys.
- `app/` is the `attesta-prover` program: files, the terminal, and the Groth16
  prover of arkworks over circuit descriptions.
- `tests/` runs the library, with real proofs and the Soroban test host.

`Cargo.toml` names `ed25519-dalek` only to hold it to 2.x: releases of the
Soroban host crate that accept any later version do not build with 3.0.
