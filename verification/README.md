# gradido_blockchain_zk

Shielded transfers for the Gradido blockchain after the Orchard model, with the exact decay of
Gradido inside the proof. The logic is verified with Verus; proofs are made and checked by halo2 on
the Pasta curves.

## Layout

`src/` is the verified library:

- `decay` — the decay of a value over time, bit for bit and over windows, with every intermediate
  value the circuit needs
- `pallas`, `hash`, `cipher`, `signature` — fields and curve, Poseidon and BLAKE2b,
  ChaCha20-Poly1305, value commitments and RedPallas signatures
- `keys`, `address`, `note`, `memo`, `note_encryption` — what a wallet holds, hands out and reads
- `tree` — note commitment tree, anchor history, nullifier set
- `bundle` — building, authorising, verifying and applying a transfer
- `protobuf`, `wire`, `signer` — the wire format, decoded strictly, and the signing device
- `circuit` — gates and cells of the circuits as plain data, what satisfies them, and that whatever
  satisfies them is right
- `primality`, `certificate` — the order of the base field is a prime, which the soundness of the
  circuits rests on
- `prover`, `ffi`, `wasm` — the decisions behind the prover and the two outside interfaces

`app/` surrounds it with what needs halo2's own traits, randomness of the platform, raw pointers or
JavaScript objects: the circuits with their layout, keys and proofs, the C interface and the
interface of the signing device.

`tests/` runs the library next to the outside crates: `prost`, `zcash_note_encryption` and halo2's
own prover give the same answers.

## Reading the contracts

A field element is the integer it stands for, a point its discrete logarithm, bytes are sequences.
Hashes and the other functions of outside crates appear under a name (`poseidon_hash`,
`aead_sealed`, ...); the functions that make the calls say what is assumed of them.
