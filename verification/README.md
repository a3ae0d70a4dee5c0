# p3_fri

The FRI folding functions and the FRI prover over the Baby Bear field, written in Verus
with their contracts proved.

- `src/field.rs`: Baby Bear elements (`Fp`), the field operations, the two-adic generators.
- `src/bits.rs`: powers of two, logarithms and the bit-reversal permutation.
- `src/matrix.rs`: the row-major matrices of `p3_matrix`.
- `src/fold_even_odd.rs`: `fold_even_odd`, `fold_quad`, `fold` and the row folds, each with
  an exact contract over spec functions.
- `src/fold_laws.rs`, `src/fold_arity_law.rs`: what the folds compute on polynomials, and
  that folding by `2^n` is folding by two `n` times.
- `src/low_degree.rs`: codewords of low degree; folding and adding keep them of low degree,
  so the prover accepts inputs of low degree; `fold` by `2^n` evaluates `sum_i beta^i p_i`,
  and a single row fold interpolates its row at `beta`.
- `src/fold_algebra.rs`: a fold of a constant is that constant, folding is linear in the
  codeword and commutes with scaling it, and the binary fold is affine in the challenge.
- `src/fri_proof.rs`, `src/prover.rs`: the proof and the prover (normalize phase, commit
  phase, query phase), generic over a commitment scheme and a challenger. The challenger is
  held in a `Transcript` that records every call on it and on the commitment scheme, with
  what went in and what came back; the contracts state the whole record, and each error
  names the call behind it (a non-canonical challenge, or an opening that does not fit the
  width of the matrix committed with its prover data).
- `app/lib.rs`: the prover run with the commitment schemes and challengers of Plonky3, and
  the proof with serde.
