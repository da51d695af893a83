# vega_small_value

Small-value kernels of the Vega NeutronNova prover, written in Verus and
proved against their contracts.

The prover folds many step-circuit instances. Most `Az/Bz/Cz` values of a
step fit in a machine integer, so the library keeps them as small integers,
zeroes the few positions that do not fit, lists those positions, and corrects
them with the field values. The contracts and laws say that every small path,
corrected at the listed positions, computes what the field path computes.

## Layout

- `src/field.rs`: the Pallas scalar field (canonical encodings; arithmetic
  through `pasta_curves`).
- `src/small_int.rs`, `src/small_value.rs`: the small integer types and the
  conversions between them and field elements.
- `src/extension_bound.rs`: the bounds that keep Lagrange extensions and
  their pairwise products inside the small types, and the certified
  polynomial type `ExtensionBoundedPoly`.
- `src/step_matvecs.rs`: the cached step tables and the construction and
  validation of their small caches.
- `src/neutronnova_zk.rs`: the pairwise folding kernels, suffix weights and
  the shape checks of the NIFS rounds.
- `src/round_claims.rs`, `src/small_c.rs`: round claims and `C` claims from
  field layers and from small layers with field corrections.
- `src/nifs_rounds.rs`: the NIFS rounds as a step function: the up-front
  input checks, the padded starting state, the cubic round polynomial, and the
  fold of every layer pair with the challenge drawn for it; the first round on
  the small cache and the later rounds on scalar `C` claims publish the
  polynomials of the field rounds.
- `src/small_neutronnova.rs`, `src/small_neutronnova_workspace.rs`: the
  small-value folds by prefix and by final weights, and the prefix workspace.
- `src/outer_mles.rs`, `src/multilinear.rs`, `src/dot.rs`: step tables split
  into layers, evaluation tables, and field-weighted sums.
- `src/errors.rs`: the error type and its messages.
- `src/laws.rs`: properties that relate these operations.
- `src/sha256_chain.rs`: the public description of the SHA-256 chain circuit.
- `tests/`: tests on concrete values.
- `app/`: serializable copies of the cached step tables, and the NIFS round
  loop that hands each round polynomial to the caller's transcript.
