//! FRI folding and proving over the Baby Bear field, with machine-checked contracts.
pub mod field;
pub mod bits;
pub mod matrix;
pub mod fold_even_odd;
pub mod fold_laws;
pub mod fold_arity_law;
pub mod fri_proof;
pub mod prover;
pub mod low_degree;
pub mod fold_algebra;
pub mod query_laws;
