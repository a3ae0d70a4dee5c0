//! The FRI proof: commitments of the commit phase, the query answers, the final polynomial and
//! the proof-of-work witness.
use crate::field::Fp;
use vstd::prelude::*;

verus! {

/// A FRI proof. `Commitment` and `Proof` are the commitment and opening-proof types of the
/// matrix commitment scheme, `Witness` the proof-of-work witness of the challenger and
/// `InputProof` the proof that opens the input polynomials at a query index.
pub struct FriProof<Commitment, Proof, Witness, InputProof> {
    /// One commitment per FRI commit-phase layer: the commitment of the codeword at that layer.
    pub commit_phase_commits: Vec<Commitment>,
    /// One commitment per input that had to be folded to reach a log-degree that is a
    /// multiple of the folding arity, with the log-height of that input.
    pub normalize_phase_commits: Vec<(Commitment, usize)>,
    /// One entry per FRI query: the openings of the normalize-phase commitments.
    pub normalize_query_proofs: Vec<NormalizeQueryProof<Proof>>,
    /// One entry per FRI query: the input openings and the openings of every commit-phase
    /// layer at the queried index.
    pub query_proofs: Vec<QueryProof<Proof, InputProof>>,
    /// The value of the final constant polynomial after all FRI foldings.
    pub final_poly: Fp,
    /// Proof-of-work witness used to bound grinding attacks on the FRI challenges.
    pub pow_witness: Witness,
}

/// The answers to one query.
pub struct QueryProof<Proof, InputProof> {
    /// Openings of the input polynomials at this query index.
    pub input_proof: InputProof,
    /// For each commit phase commitment, the openings of the commit phase codeword at the
    /// queried location, along with an opening proof.
    pub commit_phase_openings: Vec<CommitPhaseProofStep<Proof>>,
}

/// The answers of one query in the normalize phase.
pub struct NormalizeQueryProof<Proof> {
    /// For each normalize phase commitment, the opening at the queried location.
    pub normalize_phase_openings: Vec<CommitPhaseProofStep<Proof>>,
}

/// The opening of one committed codeword at a query location.
pub struct CommitPhaseProofStep<Proof> {
    /// The openings of the codeword at the sibling locations: the whole opened row but the
    /// entry at the queried location.
    pub sibling_values: Vec<Fp>,
    /// The opening proof (e.g. a Merkle path) of the row.
    pub opening_proof: Proof,
}

} // verus!
