# foaks

A GKR prover and verifier for layered arithmetic circuits over the field
GF((2^61 - 1)^2), with the linear-time-code polynomial commitment, written in
Verus: every function in `src/` carries a contract and is proved against it.
The FRI-based commitment to the input layer is not part of the library: a
GKR run ends with the input layer's claim, and `src/vpd.rs` holds only the
Merkle path check of that commitment.

## Layout

- `src/field.rs`: the field, its operations and their ring laws.
- `src/utility.rs`, `src/utils.rs`, `src/constants.rs`, `src/config.rs`: small
  helpers, the size parameter and the command-line paths.
- `src/hash.rs`, `src/merkle.rs`, `src/vpd.rs`: SHA-256 digests, Merkle trees
  and the Merkle path check of the low-degree test.
- `src/polynomial.rs`: polynomials of degree one to five and their evaluation.
- `src/fft.rs`, `src/fft_laws.rs`: the transforms between coefficients and
  values; that the forward transform evaluates the polynomial at the powers
  of the root and that the inverse transform undoes it.
- `src/public_array.rs`, `src/tensor.rs`: the public array's coefficients and
  the factorisation of the tables of a point that they rest on.
- `src/circuit.rs`, `src/text.rs`, `src/circuit_file.rs`, `src/fe_text.rs`:
  circuits, their evaluation, and reading circuits and inputs from text.
- `src/beta.rs`, `src/sumcheck.rs`, `src/prover.rs`, `src/sumcheck_rounds.rs`:
  the prover's tables, its sum-check rounds and how the rounds fit together.
- `src/gkr_verifier.rs`, `src/gkr_run.rs`: the verifier's tables and predicates
  and a full run of the protocol.
- `src/linear_code.rs`: the linear-time code built from random expanders, its
  encoder, and that the code is linear.
- `src/linear_pc.rs`: the polynomial commitment on that code: commitment,
  the circuit that checks an encoding, the tensor-product opening, and that
  an opening gives the polynomial's value.
- `src/multilinear.rs`: that the multilinear opening gives the multilinear
  extension of the committed coefficients.
- `app/`: the command-line programs (the commitment demo and the GKR
  verifier; file I/O, timing, printing, and the floating-point sizes of the
  code).
- `tests/`: tests on concrete values.
