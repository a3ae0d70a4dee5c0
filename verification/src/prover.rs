//! The FRI prover: the normalize phase, the commit phase and the query phase.
use crate::bits::{
    exp2, is_pow2, lemma_exp2_mono, lemma_exp2_pos, lemma_exp2_values, lemma_log2_exp2,
    lemma_pow2_log2, log2, shl1,
};
use crate::field::{canon, fadd, Fp};
use crate::fold_even_odd::{all_wf, fold_spec, vals};
use crate::matrix::{matrix_values, matrix_width};
use crate::fri_proof::{CommitPhaseProofStep, FriProof, NormalizeQueryProof, QueryProof};
use crate::low_degree::{all_low_degree, law_low_degree_inputs_fold_to_constant};
use vstd::prelude::*;

verus! {

/// The parameters of FRI, with the matrix commitment scheme.
pub struct FriConfig<M> {
    pub log_blowup: usize,
    /// The base-2 logarithm of the folding arity.
    pub log_arity: usize,
    pub num_queries: usize,
    pub proof_of_work_bits: usize,
    pub mmcs: M,
}

impl<M> FriConfig<M> {
    pub fn blowup(&self) -> (r: usize)
        requires
            self.log_blowup < 32,
        ensures
            r == exp2(self.log_blowup as nat),
    {
        shl1(self.log_blowup)
    }
}

/// The ways in which proving can fail.
#[derive(Debug, PartialEq, Eq, Structural)]
pub enum FriError {
    /// After all foldings the codeword is not constant: the inputs were not of low degree.
    FinalPolynomialNotConstant,
    /// The challenger gave a field element that is not in canonical form.
    NonCanonicalChallenge,
    /// The commitment scheme opened something other than one row of the committed width.
    UnexpectedOpening,
}

/// A mixed matrix commitment scheme: commits to a matrix and opens one of its rows.
pub trait FriMmcs {
    type Commitment;
    type ProverData;
    type Proof;

    /// Commits to the matrix.
    fn commit_matrix(&self, input: p3_matrix::dense::DenseMatrix<Fp, Vec<Fp>>) -> (
        Self::Commitment,
        Self::ProverData,
    );

    /// Opens the row `index` of every committed matrix, with an opening proof.
    fn open_batch(&self, index: usize, prover_data: &Self::ProverData) -> (
        Vec<Vec<Fp>>,
        Self::Proof,
    );
}

/// The Fiat-Shamir challenger of the prover.
pub trait FriChallenger<Commitment> {
    type Witness;

    /// Absorbs a commitment.
    fn observe(&mut self, commitment: &Commitment);

    /// Absorbs a field element.
    fn observe_ext_element(&mut self, x: Fp);

    /// Squeezes a field element.
    fn sample_ext_element(&mut self) -> Fp;

    /// Squeezes `bits` random bits.
    fn sample_bits(&mut self, bits: usize) -> usize;

    /// Finds a proof-of-work witness of `bits` bits and absorbs it.
    fn grind(&mut self, bits: usize) -> Self::Witness;
}

/// The opened rows as sequences of values.
pub open spec fn rows_vals(rows: Seq<Vec<Fp>>) -> Seq<Seq<int>> {
    rows.map_values(|row: Vec<Fp>| vals(row@))
}

/// The field element of a canonical value.
pub open spec fn fp_of(x: int) -> Fp {
    Fp { v: x as u32 }
}

/// One call that the prover made on the commitment scheme or on the challenger: what it handed
/// over and what came back.
pub enum Call<Commitment, Data, Proof, Witness> {
    /// `commit_matrix` of the matrix of these values (row after row) and this width.
    Commit(Seq<int>, nat, Commitment, Data),
    /// `open_batch` of this row of the matrices committed with these data.
    Open(nat, Data, Seq<Seq<int>>, Proof),
    /// `observe` of a commitment.
    Observe(Commitment),
    /// `observe_ext_element`.
    ObserveExt(Fp),
    /// `sample_ext_element`.
    SampleExt(Fp),
    /// `sample_bits` of this many bits.
    SampleBits(usize, usize),
    /// `grind` for this many bits.
    Grind(usize, Witness),
}

/// A challenger with the record of the calls made through it, on it and on the commitment
/// scheme, in order.
pub struct Transcript<C, Commitment, Data, Proof, Witness> {
    inner: C,
    calls: Ghost<Seq<Call<Commitment, Data, Proof, Witness>>>,
}

impl<C, Commitment, Data, Proof, Witness> Transcript<C, Commitment, Data, Proof, Witness> {
    /// The calls recorded so far, the first first.
    pub closed spec fn record(&self) -> Seq<Call<Commitment, Data, Proof, Witness>> {
        self.calls@
    }

    /// The challenger that the calls go to.
    pub closed spec fn wrapped(&self) -> C {
        self.inner
    }

    /// A transcript of no calls yet.
    pub fn new(challenger: C) -> (t: Self)
        ensures
            t.wrapped() == challenger,
            t.record() == Seq::<Call<Commitment, Data, Proof, Witness>>::empty(),
    {
        Transcript { inner: challenger, calls: Ghost(Seq::empty()) }
    }

    /// The challenger, to read; all calls on it go through the transcript.
    pub fn challenger(&self) -> (r: &C)
        ensures
            *r == self.wrapped(),
    {
        &self.inner
    }
}

impl<C: FriChallenger<Commitment, Witness = Witness>, Commitment, Data, Proof, Witness> Transcript<
    C,
    Commitment,
    Data,
    Proof,
    Witness,
> {
    /// `observe` on the challenger, recorded.
    pub fn observe(&mut self, commitment: &Commitment)
        ensures
            final(self).record() == old(self).record().push(Call::Observe(*commitment)),
    {
        self.inner.observe(commitment);
        self.calls = Ghost(self.calls@.push(Call::Observe(*commitment)));
    }

    /// `observe_ext_element` on the challenger, recorded.
    pub fn observe_ext_element(&mut self, x: Fp)
        ensures
            final(self).record() == old(self).record().push(Call::ObserveExt(x)),
    {
        self.inner.observe_ext_element(x);
        self.calls = Ghost(self.calls@.push(Call::ObserveExt(x)));
    }

    /// `sample_ext_element` on the challenger, recorded.
    pub fn sample_ext_element(&mut self) -> (r: Fp)
        ensures
            final(self).record() == old(self).record().push(Call::SampleExt(r)),
    {
        let r = self.inner.sample_ext_element();
        self.calls = Ghost(self.calls@.push(Call::SampleExt(r)));
        r
    }

    /// `sample_bits` on the challenger, recorded.
    pub fn sample_bits(&mut self, bits: usize) -> (r: usize)
        ensures
            final(self).record() == old(self).record().push(Call::SampleBits(bits, r)),
    {
        let r = self.inner.sample_bits(bits);
        self.calls = Ghost(self.calls@.push(Call::SampleBits(bits, r)));
        r
    }

    /// `grind` on the challenger, recorded.
    pub fn grind(&mut self, bits: usize) -> (r: Witness)
        ensures
            final(self).record() == old(self).record().push(Call::Grind(bits, r)),
    {
        let r = self.inner.grind(bits);
        self.calls = Ghost(self.calls@.push(Call::Grind(bits, r)));
        r
    }

    /// `commit_matrix` on the commitment scheme, recorded.
    pub fn commit_matrix<M: FriMmcs<Commitment = Commitment, ProverData = Data, Proof = Proof>>(
        &mut self,
        mmcs: &M,
        input: p3_matrix::dense::DenseMatrix<Fp, Vec<Fp>>,
    ) -> (r: (Commitment, Data))
        ensures
            final(self).record() == old(self).record().push(
                Call::Commit(vals(matrix_values(input)), matrix_width(input), r.0, r.1),
            ),
    {
        let ghost values = vals(matrix_values(input));
        let ghost width = matrix_width(input);
        let r = mmcs.commit_matrix(input);
        self.calls = Ghost(self.calls@.push(Call::Commit(values, width, r.0, r.1)));
        r
    }

    /// `open_batch` on the commitment scheme, recorded.
    pub fn open_batch<M: FriMmcs<Commitment = Commitment, ProverData = Data, Proof = Proof>>(
        &mut self,
        mmcs: &M,
        index: usize,
        prover_data: &Data,
    ) -> (r: (Vec<Vec<Fp>>, Proof))
        ensures
            final(self).record() == old(self).record().push(
                Call::Open(index as nat, *prover_data, rows_vals(r.0@), r.1),
            ),
    {
        let r = mmcs.open_batch(index, prover_data);
        self.calls = Ghost(self.calls@.push(Call::Open(index as nat, *prover_data, rows_vals(r.0@), r.1)));
        r
    }
}

/// The challenge `x` that the challenger gave, if it is a canonical field element.
pub fn checked_challenge(x: Fp) -> (r: Result<Fp, FriError>)
    ensures
        x.wf() <==> r is Ok,
        r matches Ok(y) ==> y == x,
        r matches Err(e) ==> e == FriError::NonCanonicalChallenge,
{
    if x.v < crate::field::P {
        Ok(x)
    } else {
        Err(FriError::NonCanonicalChallenge)
    }
}

/// A challenge from the challenger, checked to be a canonical field element. Which element
/// the challenger gives is up to it; `checked_challenge` says what comes of each.
fn sample_challenge<C: FriChallenger<Cm, Witness = W>, Cm, D, P, W>(
    t: &mut Transcript<C, Cm, D, P, W>,
) -> (r: Result<Fp, FriError>)
    ensures
        final(t).calls@.len() == old(t).calls@.len() + 1,
        final(t).calls@.drop_last() == old(t).calls@,
        final(t).calls@.last() matches Call::SampleExt(x) && (x.wf() <==> r is Ok) && (r matches Ok(
            y,
        ) ==> y == x),
        r matches Err(e) ==> e == FriError::NonCanonicalChallenge,
{
    let x = t.sample_ext_element();
    proof {
        assert(t.calls@.drop_last() =~= old(t).calls@);
    }
    checked_challenge(x)
}

// ---------------------------------------------------------------------------------------------
// The query phase
/// The position `index & (2^log_num_leaves - 1)` of the queried entry in the opened row
/// `index >> log_num_leaves`.
pub open spec fn query_position(index: nat, log_num_leaves: nat) -> nat {
    index % exp2(log_num_leaves)
}

/// The siblings of the queried entry in the opened rows: the single opened row of
/// `2^log_num_leaves` entries without the entry at `index & (2^log_num_leaves - 1)`. Any
/// other shape of the opening is an error.
pub fn siblings_of(opened_rows: Vec<Vec<Fp>>, index: usize, log_num_leaves: usize) -> (r: Result<
    Vec<Fp>,
    FriError,
>)
    requires
        log_num_leaves < 32,
    ensures
        (opened_rows@.len() == 1 && opened_rows@[0]@.len() == exp2(log_num_leaves as nat)) <==> r
            is Ok,
        r matches Ok(s) ==> s@ == opened_rows@[0]@.remove(
            query_position(index as nat, log_num_leaves as nat) as int,
        ) && s@.len() == exp2(log_num_leaves as nat) - 1,
        r matches Err(e) ==> e == FriError::UnexpectedOpening,
{
    let mut opened_rows = opened_rows;
    if opened_rows.len() != 1 {
        return Err(FriError::UnexpectedOpening);
    }
    let opened_row = opened_rows.pop().unwrap();
    let leaves = shl1(log_num_leaves);
    if opened_row.len() != leaves {
        return Err(FriError::UnexpectedOpening);
    }
    let mut siblings = opened_row;
    proof {
        lemma_exp2_pos(log_num_leaves as nat);
    }
    let pos = index & (leaves - 1);
    proof {
        crate::bits::lemma_exp2_is_pow2(log_num_leaves as nat);
        lemma_exp2_mono(log_num_leaves as nat, 31);
        lemma_exp2_values();
        vstd::bits::lemma_usize_low_bits_mask_is_mod(index, log_num_leaves as nat);
        vstd::bits::lemma_low_bits_mask_values();
        lemma_low_bits_mask_is_pow2_minus_one(log_num_leaves as nat);
        lemma_exp2_pos(log_num_leaves as nat);
    }
    siblings.remove(pos);
    Ok(siblings)
}

/// `low_bits_mask(n) = 2^n - 1`.
proof fn lemma_low_bits_mask_is_pow2_minus_one(n: nat)
    ensures
        vstd::bits::low_bits_mask(n) == exp2(n) - 1,
    decreases n,
{
    crate::bits::lemma_exp2_is_pow2(n);
    vstd::bits::lemma_low_bits_mask_values();
    if n > 0 {
        vstd::bits::lemma_low_bits_mask_unfold(n);
        lemma_low_bits_mask_is_pow2_minus_one((n - 1) as nat);
        crate::bits::lemma_exp2_is_pow2((n - 1) as nat);
        vstd::arithmetic::power2::lemma_pow2_unfold(n);
    } else {
        vstd::arithmetic::power::lemma_pow0(2);
    }
}

/// `call` opens row `index / 2^log_num_leaves` of the matrices committed with `data`.
pub open spec fn opens_row<Cm, D, P, W>(call: Call<Cm, D, P, W>, data: D, index: nat, log_num_leaves: nat) -> bool {
    call matches Call::Open(row, d, rows, proof) && row == index / exp2(log_num_leaves) && d == data
}

/// What `call` opened is one row of `2^log_num_leaves` entries.
pub open spec fn well_opened<Cm, D, P, W>(call: Call<Cm, D, P, W>, log_num_leaves: nat) -> bool {
    call matches Call::Open(row, d, rows, proof) && rows.len() == 1 && rows[0].len() == exp2(log_num_leaves)
}

/// `step` keeps the opening proof of `call` and the siblings of the entry at
/// `index % 2^log_num_leaves` in the row it opened.
pub open spec fn step_of<Cm, D, P, W>(call: Call<Cm, D, P, W>, index: nat, log_num_leaves: nat, step: CommitPhaseProofStep<P>) -> bool {
    call matches Call::Open(row, d, rows, proof) && step.opening_proof == proof && vals(step.sibling_values@)
        == rows[0].remove(query_position(index, log_num_leaves) as int)
}

/// The values of a sequence with one entry removed.
proof fn lemma_vals_remove(a: Seq<Fp>, i: int)
    requires
        0 <= i < a.len(),
    ensures
        vals(a.remove(i)) == vals(a).remove(i),
{
    assert(vals(a.remove(i)) =~= vals(a).remove(i));
}

/// A function to answer a single step of the query phases: opens the row of the committed
/// codeword that holds the queried location and keeps the siblings of that location.
fn answer_query_single_step<M: FriMmcs, C: FriChallenger<M::Commitment>>(
    config: &FriConfig<M>,
    t: &mut Transcript<C, M::Commitment, M::ProverData, M::Proof, C::Witness>,
    data: &M::ProverData,
    index: usize,
    log_num_leaves: usize,
) -> (r: Result<CommitPhaseProofStep<M::Proof>, FriError>)
    requires
        log_num_leaves < 32,
    ensures
        final(t).calls@.len() == old(t).calls@.len() + 1,
        final(t).calls@.drop_last() == old(t).calls@,
        opens_row(final(t).calls@.last(), *data, index as nat, log_num_leaves as nat),
        well_opened(final(t).calls@.last(), log_num_leaves as nat) <==> r is Ok,
        r matches Ok(step) ==> step_of(final(t).calls@.last(), index as nat, log_num_leaves as nat, step)
            && step.sibling_values@.len() == exp2(log_num_leaves as nat) - 1,
        r matches Err(e) ==> e == FriError::UnexpectedOpening,
{
    proof {
        crate::bits::lemma_shr_is_div(index, log_num_leaves);
    }
    let (opened_rows, opening_proof) = t.open_batch(&config.mmcs, index >> log_num_leaves, data);
    proof {
        assert(t.calls@.drop_last() =~= old(t).calls@);
        assert(rows_vals(opened_rows@).len() == opened_rows@.len());
        if opened_rows@.len() >= 1 {
            assert(rows_vals(opened_rows@)[0] == vals(opened_rows@[0]@));
        }
    }
    let ghost rows = opened_rows@;
    let siblings = siblings_of(opened_rows, index, log_num_leaves);
    match siblings {
        Ok(sibling_values) => {
            proof {
                crate::bits::lemma_exp2_pos(log_num_leaves as nat);
                vstd::arithmetic::div_mod::lemma_mod_bound(index as int, exp2(log_num_leaves as nat) as int);
                lemma_vals_remove(rows[0]@, query_position(index as nat, log_num_leaves as nat) as int);
            }
            Ok(CommitPhaseProofStep { sibling_values, opening_proof })
        },
        Err(e) => Err(e),
    }
}

/// `step` answers the query at `index` in a layer with rows of `2^log_arity` entries: `call`
/// opened one row of that many entries and `step` keeps its proof and the siblings.
pub open spec fn answers<Cm, D, P, W>(call: Call<Cm, D, P, W>, index: nat, log_arity: nat, step: CommitPhaseProofStep<P>) -> bool {
    &&& well_opened(call, log_arity)
    &&& step_of(call, index, log_arity, step)
    &&& step.sibling_values@.len() == exp2(log_arity) - 1
}

/// Answers one query in every layer of the commit phase: layer `i` is opened at
/// `index >> (i * log_arity)`, that is at its row `index >> ((i + 1) * log_arity)`.
fn answer_query<M: FriMmcs, C: FriChallenger<M::Commitment>>(
    config: &FriConfig<M>,
    t: &mut Transcript<C, M::Commitment, M::ProverData, M::Proof, C::Witness>,
    commit_phase_commits: &Vec<M::ProverData>,
    index: usize,
) -> (r: Result<Vec<CommitPhaseProofStep<M::Proof>>, FriError>)
    requires
        1 <= config.log_arity,
        commit_phase_commits@.len() * config.log_arity < 32,
    ensures
        final(t).calls@.subrange(0, old(t).calls@.len() as int) == old(t).calls@,
        final(t).calls@.len() <= old(t).calls@.len() + commit_phase_commits@.len(),
        forall|i: int|
            0 <= i < final(t).calls@.len() - old(t).calls@.len() ==> opens_row(
                #[trigger] final(t).calls@[old(t).calls@.len() + i],
                commit_phase_commits@[i],
                (index as nat) / exp2((i * config.log_arity) as nat),
                config.log_arity as nat,
            ),
        r matches Ok(steps) ==> {
            &&& steps@.len() == commit_phase_commits@.len()
            &&& final(t).calls@.len() == old(t).calls@.len() + commit_phase_commits@.len()
            &&& forall|i: int|
                0 <= i < steps@.len() ==> #[trigger] answers(
                    final(t).calls@[old(t).calls@.len() + i],
                    (index as nat) / exp2((i * config.log_arity) as nat),
                    config.log_arity as nat,
                    steps@[i],
                )
            &&& forall|i: int|
                0 <= i < steps@.len() ==> (#[trigger] steps@[i]).sibling_values@.len() == exp2(config.log_arity as nat) - 1
        },
        r matches Err(e) ==> e == FriError::UnexpectedOpening && final(t).calls@.len() > old(t).calls@.len()
            && !well_opened(final(t).calls@.last(), config.log_arity as nat),
{
    let log_arity = config.log_arity;
    let mut steps: Vec<CommitPhaseProofStep<M::Proof>> = Vec::new();
    let n = commit_phase_commits.len();
    let ghost base = old(t).calls@;
    let mut i: usize = 0;
    while i < n
        invariant
            n == commit_phase_commits@.len(),
            1 <= log_arity,
            log_arity == config.log_arity,
            n * log_arity < 32,
            i <= n,
            steps@.len() == i,
            t.calls@.len() == base.len() + i,
            t.calls@.subrange(0, base.len() as int) == base,
            base == old(t).calls@,
            forall|j: int|
                0 <= j < i ==> opens_row(
                    #[trigger] t.calls@[base.len() + j],
                    commit_phase_commits@[j],
                    (index as nat) / exp2((j * log_arity) as nat),
                    log_arity as nat,
                ),
            forall|j: int|
                0 <= j < i ==> #[trigger] answers(
                    t.calls@[base.len() + j],
                    (index as nat) / exp2((j * log_arity) as nat),
                    log_arity as nat,
                    steps@[j],
                ),
        decreases n - i,
    {
        proof {
            vstd::arithmetic::mul::lemma_mul_inequality(i as int, n as int, log_arity as int);
            vstd::arithmetic::mul::lemma_mul_inequality(1, n as int, log_arity as int);
        }
        let shift = i * log_arity;
        proof {
            crate::bits::lemma_shr_is_div(index, shift);
        }
        let index_i = index >> shift;
        let ghost before = t.calls@;
        let ghost before_steps = steps@;
        let step = answer_query_single_step(config, t, &commit_phase_commits[i], index_i, log_arity);
        proof {
            assert(t.calls@.subrange(0, base.len() as int) =~= before.subrange(0, base.len() as int));
            assert forall|j: int| 0 <= j < i implies #[trigger] t.calls@[base.len() + j] == before[base.len() + j] by {
                assert(t.calls@.drop_last()[base.len() + j] == t.calls@[base.len() + j]);
            }
            assert(t.calls@[base.len() + i] == t.calls@.last());
            assert(index_i as nat == (index as nat) / exp2((i * log_arity) as nat));
        }
        match step {
            Ok(s) => {
                steps.push(s);
                proof {
                    assert forall|j: int| 0 <= j < i + 1 implies #[trigger] answers(
                        t.calls@[base.len() + j],
                        (index as nat) / exp2((j * log_arity) as nat),
                        log_arity as nat,
                        steps@[j],
                    ) by {
                        if j < i {
                            assert(steps@[j] == before_steps[j]);
                            assert(t.calls@[base.len() + j] == before[base.len() + j]);
                            assert(answers(
                                before[base.len() + j],
                                (index as nat) / exp2((j * log_arity) as nat),
                                log_arity as nat,
                                before_steps[j],
                            ));
                        } else {
                            assert(steps@[j] == s);
                        }
                    }
                    assert forall|j: int| 0 <= j < i + 1 implies opens_row(
                        #[trigger] t.calls@[base.len() + j],
                        commit_phase_commits@[j],
                        (index as nat) / exp2((j * log_arity) as nat),
                        log_arity as nat,
                    ) by {
                        if j < i {
                            assert(t.calls@[base.len() + j] == before[base.len() + j]);
                        }
                    }
                }
            },
            Err(e) => return Err(e),
        }
        i = i + 1;
    }
    proof {
        assert forall|j: int| 0 <= j < steps@.len() implies (#[trigger] steps@[j]).sibling_values@.len() == exp2(log_arity as nat) - 1 by {
            assert(answers(
                t.calls@[base.len() + j],
                (index as nat) / exp2((j * log_arity) as nat),
                log_arity as nat,
                steps@[j],
            ));
        }
    }
    Ok(steps)
}


// ---------------------------------------------------------------------------------------------
// The commit phase
/// A length of a codeword of the commit phase: `2^l` with `l >= log_blowup` and
/// `l - log_blowup` a multiple of `log_arity`.
pub open spec fn on_ladder(n: nat, log_blowup: nat, log_arity: nat) -> bool {
    &&& is_pow2(n)
    &&& log2(n) >= log_blowup
    &&& (log2(n) - log_blowup) % (log_arity as int) == 0
}

/// The field sum of two vectors, entry by entry.
pub open spec fn vadd(a: Seq<int>, b: Seq<int>) -> Seq<int> {
    Seq::new(a.len(), |i: int| fadd(a[i], b[i]))
}

/// One round of the commit phase: the codeword is folded by `2^log_arity` with `beta`, and the
/// next input is added to it when it has the folded length. Returns the new codeword and the
/// index of the next input.
pub open spec fn commit_round(
    folded: Seq<int>,
    inputs: Seq<Seq<int>>,
    next: nat,
    beta: int,
    log_arity: nat,
) -> (Seq<int>, nat) {
    let f = fold_spec(folded, beta, log_arity);
    if next < inputs.len() && inputs[next as int].len() == f.len() {
        (vadd(f, inputs[next as int]), next + 1)
    } else {
        (f, next)
    }
}

/// The codeword of the commit phase after the rounds with challenges `betas`, starting from
/// the first input, with the index of the next input to add.
pub open spec fn commit_state(inputs: Seq<Seq<int>>, betas: Seq<int>, log_arity: nat) -> (
    Seq<int>,
    nat,
)
    decreases betas.len(),
{
    if betas.len() == 0 {
        (inputs[0], 1)
    } else {
        let prev = commit_state(inputs, betas.drop_last(), log_arity);
        commit_round(prev.0, inputs, prev.1, betas.last(), log_arity)
    }
}

/// The vectors of field elements as sequences of values.
pub open spec fn vvals(v: Seq<Vec<Fp>>) -> Seq<Seq<int>> {
    v.map_values(|x: Vec<Fp>| vals(x@))
}

/// The inputs that the commit phase accepts: at least one, of lengths on the ladder and not
/// increasing, the first at most `2^27`, of canonical elements.
pub open spec fn commit_inputs_ok(inputs: Seq<Vec<Fp>>, log_blowup: nat, log_arity: nat) -> bool {
    &&& inputs.len() >= 1
    &&& log2(inputs[0]@.len()) <= 27
    &&& forall|q: int|
        0 <= q < inputs.len() ==> on_ladder((#[trigger] inputs[q])@.len(), log_blowup, log_arity)
            && all_wf(inputs[q]@)
    &&& forall|q: int, r: int|
        0 <= q < r < inputs.len() ==> (#[trigger] inputs[r])@.len() <= (#[trigger] inputs[q])@.len()
}

/// The number of rounds of the commit phase on a first codeword of length `2^l`.
pub open spec fn num_rounds(n: nat, log_blowup: nat, log_arity: nat) -> nat {
    ((log2(n) - log_blowup) / (log_arity as int)) as nat
}

/// Every value is a canonical field element.
pub open spec fn all_canon(s: Seq<int>) -> bool {
    forall|i: int| 0 <= i < s.len() ==> canon(#[trigger] s[i])
}

/// The codeword is constant.
pub open spec fn is_constant(v: Seq<int>) -> bool {
    forall|i: int| 0 <= i < v.len() ==> #[trigger] v[i] == v[0]
}

/// What the commit phase hands on: the commitments and prover data of each layer, the final
/// polynomial, and the challenges it folded with.
struct CommitPhaseResult<C, D> {
    commits: Vec<C>,
    data: Vec<D>,
    final_poly: Fp,
    betas: Ghost<Seq<int>>,
}

/// `x < y`, both congruent to `c` modulo `k`: then `x <= y - k`.
proof fn lemma_ladder_step(x: int, y: int, c: int, k: int)
    requires
        k >= 1,
        x >= c,
        y >= c,
        (x - c) % k == 0,
        (y - c) % k == 0,
        x < y,
    ensures
        x <= y - k,
        (y - k - c) % k == 0,
        y - k >= c,
{
    vstd::arithmetic::div_mod::lemma_fundamental_div_mod(x - c, k);
    vstd::arithmetic::div_mod::lemma_fundamental_div_mod(y - c, k);
    let qx = (x - c) / k;
    let qy = (y - c) / k;
    assert(k * qx < k * qy);
    if qx >= qy {
        vstd::arithmetic::mul::lemma_mul_inequality(qy, qx, k);
        vstd::arithmetic::mul::lemma_mul_is_commutative(qy, k);
        vstd::arithmetic::mul::lemma_mul_is_commutative(qx, k);
    }
    assert(qx + 1 <= qy);
    vstd::arithmetic::mul::lemma_mul_inequality(qx + 1, qy, k);
    vstd::arithmetic::mul::lemma_mul_is_commutative(qx + 1, k);
    vstd::arithmetic::mul::lemma_mul_is_commutative(qy, k);
    assert(k * (qx + 1) == k * qx + k) by (nonlinear_arith);
    assert(y - k - c == k * (qy - 1)) by (nonlinear_arith)
        requires
            y - c == k * qy,
    ;
    vstd::arithmetic::div_mod::lemma_mod_multiples_basic(qy - 1, k);
    vstd::arithmetic::mul::lemma_mul_is_commutative(qy - 1, k);
    assert(k * qx >= 0) by (nonlinear_arith)
        requires
            k >= 1,
            qx >= 0,
    ;
}

/// The entry-by-entry field sum of two vectors.
fn add_vectors(a: &Vec<Fp>, b: &Vec<Fp>) -> (r: Vec<Fp>)
    requires
        a@.len() == b@.len(),
        all_wf(a@),
        all_wf(b@),
    ensures
        all_wf(r@),
        vals(r@) == vadd(vals(a@), vals(b@)),
{
    let mut r: Vec<Fp> = Vec::new();
    for i in 0..a.len()
        invariant
            a@.len() == b@.len(),
            all_wf(a@),
            all_wf(b@),
            r@.len() == i,
            forall|j: int|
                0 <= j < i ==> (#[trigger] r@[j]).wf() && r@[j].val() == fadd(
                    a@[j].val(),
                    b@[j].val(),
                ),
    {
        r.push(a[i].add(b[i]));
    }
    proof {
        assert(vals(r@) =~= vadd(vals(a@), vals(b@)));
    }
    r
}

/// A copy of a vector of field elements.
fn copy_vec(a: &Vec<Fp>) -> (r: Vec<Fp>)
    ensures
        r@ == a@,
{
    let mut r: Vec<Fp> = Vec::new();
    for i in 0..a.len()
        invariant
            r@ == a@.subrange(0, i as int),
    {
        r.push(a[i]);
        proof {
            assert(a@.subrange(0, i + 1) =~= a@.subrange(0, i as int).push(a@[i as int]));
        }
    }
    proof {
        assert(a@.subrange(0, a@.len() as int) =~= a@);
    }
    r
}

/// The codeword is constant: its first entry, or an error.
pub fn final_poly_of(folded: &Vec<Fp>) -> (r: Result<Fp, FriError>)
    requires
        folded@.len() >= 1,
    ensures
        is_constant(vals(folded@)) <==> r is Ok,
        r matches Ok(x) ==> x == folded@[0],
        r matches Err(e) ==> e == FriError::FinalPolynomialNotConstant,
{
    let final_poly = folded[0];
    for i in 0..folded.len()
        invariant
            folded@.len() >= 1,
            final_poly == folded@[0],
            forall|j: int| 0 <= j < i ==> folded@[j].v == final_poly.v,
    {
        if folded[i].v != final_poly.v {
            proof {
                assert(vals(folded@)[i as int] != vals(folded@)[0]);
            }
            return Err(FriError::FinalPolynomialNotConstant);
        }
    }
    proof {
        assert forall|i: int| 0 <= i < vals(folded@).len() implies #[trigger] vals(folded@)[i]
            == vals(folded@)[0] by {
            assert(folded@[i].v == final_poly.v);
        }
    }
    Ok(final_poly)
}

/// The calls of one commit round: commit to the codeword `st` with rows of `2^log_arity`
/// entries, observe the commitment, draw the challenge `beta`.
pub open spec fn commit_round_calls<Cm, D, P, W>(st: Seq<int>, log_arity: nat, c: Cm, d: D, beta: int) -> Seq<Call<Cm, D, P, W>> {
    seq![Call::Commit(st, exp2(log_arity), c, d), Call::Observe(c), Call::SampleExt(fp_of(beta))]
}

/// The calls of the commit rounds with challenges `betas`, commitments `commits` and prover
/// data `data`: round `t` commits to the codeword left after the rounds before it.
pub open spec fn commit_log<Cm, D, P, W>(
    inputs: Seq<Seq<int>>,
    betas: Seq<int>,
    commits: Seq<Cm>,
    data: Seq<D>,
    log_arity: nat,
) -> Seq<Call<Cm, D, P, W>>
    decreases betas.len(),
{
    if betas.len() == 0 {
        Seq::empty()
    } else {
        let t = betas.len() - 1;
        commit_log(inputs, betas.drop_last(), commits.take(t), data.take(t), log_arity) + commit_round_calls(
            commit_state(inputs, betas.drop_last(), log_arity).0,
            log_arity,
            commits[t],
            data[t],
            betas[t],
        )
    }
}

/// `calls` is `base` followed by the commit rounds with challenges `betas`, then the commitment
/// of the next codeword, its observation and the non-canonical challenge `x`.
pub open spec fn commit_log_noncanonical<Cm, D, P, W>(
    calls: Seq<Call<Cm, D, P, W>>,
    base: Seq<Call<Cm, D, P, W>>,
    inputs: Seq<Seq<int>>,
    betas: Seq<int>,
    commits: Seq<Cm>,
    data: Seq<D>,
    c: Cm,
    d: D,
    x: Fp,
    log_arity: nat,
) -> bool {
    &&& all_canon(betas)
    &&& !x.wf()
    &&& calls == base + commit_log::<Cm, D, P, W>(inputs, betas, commits, data, log_arity) + seq![
        Call::Commit(commit_state(inputs, betas, log_arity).0, exp2(log_arity), c, d),
        Call::Observe(c),
        Call::SampleExt(x),
    ]
}

/// `calls` is `base` followed by all the commit rounds with the canonical challenges `betas`.
pub open spec fn commit_log_complete<Cm, D, P, W>(
    calls: Seq<Call<Cm, D, P, W>>,
    base: Seq<Call<Cm, D, P, W>>,
    inputs: Seq<Seq<int>>,
    betas: Seq<int>,
    commits: Seq<Cm>,
    data: Seq<D>,
    log_arity: nat,
) -> bool {
    &&& all_canon(betas)
    &&& calls == base + commit_log::<Cm, D, P, W>(inputs, betas, commits, data, log_arity)
}

/// The commit phase: folds the codeword by `2^log_arity` until `blowup` evaluations are left,
/// committing to each codeword before folding it with a challenge, and adding each input when
/// the codeword reaches its length. The final codeword must be constant.
#[verifier::rlimit(50)]
fn commit_phase<M: FriMmcs, C: FriChallenger<M::Commitment>>(
    config: &FriConfig<M>,
    inputs: Vec<Vec<Fp>>,
    t: &mut Transcript<C, M::Commitment, M::ProverData, M::Proof, C::Witness>,
) -> (r: Result<CommitPhaseResult<M::Commitment, M::ProverData>, FriError>)
    requires
        1 <= config.log_arity,
        config.log_blowup <= 27,
        commit_inputs_ok(inputs@, config.log_blowup as nat, config.log_arity as nat),
    ensures
        ({
            let n = num_rounds(inputs@[0]@.len(), config.log_blowup as nat, config.log_arity as nat);
            n == 0 ==> (r is Ok <==> is_constant(vals(inputs@[0]@)))
        }),
        r matches Ok(res) ==> {
            let n = num_rounds(inputs@[0]@.len(), config.log_blowup as nat, config.log_arity as nat);
            let st = commit_state(vvals(inputs@), res.betas@, config.log_arity as nat);
            &&& res.betas@.len() == n
            &&& all_canon(res.betas@)
            &&& res.commits@.len() == n
            &&& res.data@.len() == n
            &&& st.0.len() == exp2(config.log_blowup as nat)
            &&& is_constant(st.0)
            &&& res.final_poly.wf()
            &&& res.final_poly.val() == st.0[0]
            &&& final(t).calls@ == old(t).calls@ + commit_log::<M::Commitment, M::ProverData, M::Proof, C::Witness>(
                vvals(inputs@),
                res.betas@,
                res.commits@,
                res.data@,
                config.log_arity as nat,
            ).push(Call::ObserveExt(res.final_poly))
        },
        r matches Err(e) ==> (e == FriError::NonCanonicalChallenge && exists|
            betas: Seq<int>,
            commits: Seq<M::Commitment>,
            data: Seq<M::ProverData>,
            c: M::Commitment,
            d: M::ProverData,
            x: Fp,
        |
            betas.len() < num_rounds(inputs@[0]@.len(), config.log_blowup as nat, config.log_arity as nat)
                && #[trigger] commit_log_noncanonical::<M::Commitment, M::ProverData, M::Proof, C::Witness>(
                final(t).calls@,
                old(t).calls@,
                vvals(inputs@),
                betas,
                commits,
                data,
                c,
                d,
                x,
                config.log_arity as nat,
            )) || (e == FriError::FinalPolynomialNotConstant && exists|
            betas: Seq<int>,
            commits: Seq<M::Commitment>,
            data: Seq<M::ProverData>,
        |
            betas.len() == num_rounds(inputs@[0]@.len(), config.log_blowup as nat, config.log_arity as nat)
                && !is_constant(commit_state(vvals(inputs@), betas, config.log_arity as nat).0)
                && #[trigger] commit_log_complete::<M::Commitment, M::ProverData, M::Proof, C::Witness>(
                final(t).calls@,
                old(t).calls@,
                vvals(inputs@),
                betas,
                commits,
                data,
                config.log_arity as nat,
            )),
{
    let ghost lb = config.log_blowup as nat;
    let ghost la = config.log_arity as nat;
    let ghost ivals = vvals(inputs@);
    let log_arity = config.log_arity;
    let mut folded = copy_vec(&inputs[0]);
    let mut next: usize = 1;
    let mut commits: Vec<M::Commitment> = Vec::new();
    let mut data: Vec<M::ProverData> = Vec::new();
    let ghost mut betas: Seq<int> = Seq::empty();
    let blowup = config.blowup();
    let ghost l0 = log2(inputs@[0]@.len());
    let ghost base = old(t).calls@;
    proof {
        assert(inputs@[0]@.len() >= 1) by {
            lemma_pow2_log2(inputs@[0]@.len());
        }
        assert(ivals[0] == vals(inputs@[0]@));
        lemma_exp2_values();
    }
    while folded.len() > blowup
        invariant
            1 <= la == log_arity == config.log_arity,
            lb == config.log_blowup <= 27,
            blowup == exp2(lb),
            ivals == vvals(inputs@),
            commit_inputs_ok(inputs@, lb, la),
            l0 == log2(inputs@[0]@.len()),
            on_ladder(folded@.len() as nat, lb, la),
            log2(folded@.len() as nat) <= 27,
            log2(folded@.len() as nat) + la * betas.len() == l0,
            all_wf(folded@),
            1 <= next <= inputs@.len(),
            commit_state(ivals, betas, la) == (vals(folded@), next as nat),
            all_canon(betas),
            commits@.len() == betas.len(),
            data@.len() == betas.len(),
            t.calls@ == base + commit_log::<M::Commitment, M::ProverData, M::Proof, C::Witness>(ivals, betas, commits@, data@, la),
            base == old(t).calls@,
        decreases folded@.len(),
    {
        let ghost lf = log2(folded@.len() as nat);
        proof {
            lemma_pow2_log2(folded@.len() as nat);
            crate::bits::lemma_exp2_strict_inv(lb, lf);
            vstd::arithmetic::div_mod::lemma_small_mod(0, la);
            lemma_ladder_step(lb as int, lf as int, lb as int, la as int);
            lemma_exp2_mono(la, 27);
            crate::bits::lemma_exp2_divides(la, lf);
            lemma_log2_exp2((lf - la) as nat);
            lemma_exp2_mono(la, 31);
            lemma_exp2_pos(la);
            vstd::arithmetic::div_mod::lemma_mod_multiples_basic(
                exp2((lf - la) as nat) as int,
                exp2(la) as int,
            );
        }
        let width = shl1(log_arity);
        let leaves = crate::matrix::matrix_new(copy_vec(&folded), width);
        let ghost log_before = t.calls@;
        proof {
            assert(crate::matrix::matrix_width(leaves) == exp2(la));
            assert(vals(crate::matrix::matrix_values(leaves)) == commit_state(ivals, betas, la).0);
        }
        let (commit, prover_data) = t.commit_matrix(&config.mmcs, leaves);
        t.observe(&commit);
        let ghost log_mid = t.calls@;
        proof {
            assert(log_mid == log_before.push(
                Call::Commit(commit_state(ivals, betas, la).0, exp2(la), commit, prover_data),
            ).push(Call::Observe(commit)));
        }
        let beta = match sample_challenge(t) {
            Ok(b) => b,
            Err(e) => {
                proof {
                    let x = t.calls@.last()->SampleExt_0;
                    assert(t.calls@ =~= log_mid.push(Call::SampleExt(x)));
                    assert(t.calls@ =~= base + commit_log::<M::Commitment, M::ProverData, M::Proof, C::Witness>(ivals, betas, commits@, data@, la) + seq![
                        Call::Commit(commit_state(ivals, betas, la).0, exp2(la), commit, prover_data),
                        Call::Observe(commit),
                        Call::SampleExt(x),
                    ]);
                    assert(commit_log_noncanonical::<M::Commitment, M::ProverData, M::Proof, C::Witness>(
                        t.calls@, base, ivals, betas, commits@, data@, commit, prover_data, x, la));
                    assert(betas.len() < num_rounds(inputs@[0]@.len(), lb, la)) by {
                        lemma_pow2_log2(inputs@[0]@.len());
                        assert(la * (betas.len() + 1) == la * betas.len() + la) by (nonlinear_arith);
                        vstd::arithmetic::div_mod::lemma_div_is_ordered((la * (betas.len() + 1)) as int, (l0 - lb) as int, la as int);
                        vstd::arithmetic::div_mod::lemma_div_multiples_vanish((betas.len() + 1) as int, la as int);
                        vstd::arithmetic::mul::lemma_mul_is_commutative(la as int, (betas.len() + 1) as int);
                    }
                    assert(e == FriError::NonCanonicalChallenge);
                    assert(exists|
                        betas2: Seq<int>,
                        commits2: Seq<M::Commitment>,
                        data2: Seq<M::ProverData>,
                        c2: M::Commitment,
                        d2: M::ProverData,
                        x2: Fp,
                    |
                        betas2.len() < num_rounds(inputs@[0]@.len(), config.log_blowup as nat, config.log_arity as nat)
                            && #[trigger] commit_log_noncanonical::<M::Commitment, M::ProverData, M::Proof, C::Witness>(
                            t.calls@,
                            old(t).calls@,
                            vvals(inputs@),
                            betas2,
                            commits2,
                            data2,
                            c2,
                            d2,
                            x2,
                            config.log_arity as nat,
                        ));
                }
                return Err(e);
            },
        };
        let ghost log_after = t.calls@;
        proof {
            assert(log_after =~= log_mid.push(log_after.last()));
        }
        let leaves = crate::matrix::matrix_new(copy_vec(&folded), width);
        proof {
            vstd::arithmetic::div_mod::lemma_div_by_multiple(
                exp2((lf - la) as nat) as int,
                exp2(la) as int,
            );
            assert(crate::matrix::matrix_height(leaves) == exp2((lf - la) as nat));
            assert(vals(crate::matrix::matrix_values(leaves)) == vals(folded@));
        }
        let ghost prev_folded = vals(folded@);
        let ghost prev_next = next as nat;
        let ghost old_len = folded@.len();
        assert(prev_folded.len() == old_len);
        assert(old_len == exp2((lf - la) as nat) * exp2(la));
        folded = crate::fold_even_odd::fold(leaves, beta, log_arity);
        assert(vals(folded@).len() == folded@.len());
        assert(vals(folded@).len() == old_len / exp2(la));
        let ghost cs_old = commits@;
        let ghost ds_old = data@;
        commits.push(commit);
        data.push(prover_data);
        proof {
            assert(folded@.len() == exp2((lf - la) as nat));
            lemma_log2_exp2((lf - la) as nat);
        }
        if next < inputs.len() && inputs[next].len() == folded.len() {
            let ghost before = folded@;
            folded = add_vectors(&folded, &inputs[next]);
            next = next + 1;
            assert(vals(folded@).len() == before.len());
        }
        proof {
            let nb = betas.push(beta.val());
            assert(nb.drop_last() =~= betas);
            let cs = commits@;
            let ds = data@;
            assert(cs.take(betas.len() as int) =~= cs_old);
            assert(ds.take(betas.len() as int) =~= ds_old);
            assert(fp_of(beta.val()) == beta);
            assert(log_after == log_mid.push(Call::SampleExt(beta)));
            assert(cs[betas.len() as int] == commit);
            assert(ds[betas.len() as int] == prover_data);
            assert(commit_round_calls::<M::Commitment, M::ProverData, M::Proof, C::Witness>(
                commit_state(ivals, betas, la).0, la, commit, prover_data, beta.val(),
            ) =~= seq![
                Call::Commit(commit_state(ivals, betas, la).0, exp2(la), commit, prover_data),
                Call::Observe(commit),
                Call::SampleExt(beta),
            ]);
            assert(commit_log::<M::Commitment, M::ProverData, M::Proof, C::Witness>(ivals, nb, cs, ds, la)
                == commit_log::<M::Commitment, M::ProverData, M::Proof, C::Witness>(ivals, betas, cs_old, ds_old, la)
                + commit_round_calls::<M::Commitment, M::ProverData, M::Proof, C::Witness>(
                commit_state(ivals, betas, la).0, la, commit, prover_data, beta.val()));
            assert(t.calls@ =~= base + commit_log::<M::Commitment, M::ProverData, M::Proof, C::Witness>(ivals, nb, cs, ds, la));
            if prev_next < inputs@.len() {
                assert(ivals[prev_next as int] == vals(inputs@[prev_next as int]@));
            }
            betas = nb;
            // the new codeword is on the ladder
            assert(folded@.len() == exp2((lf - la) as nat));
            assert(log2(folded@.len() as nat) == (lf - la) as nat);
            vstd::arithmetic::mul::lemma_mul_is_distributive_add(la as int, betas.len() - 1, 1);
        }
    }
    // We should be left with `blowup` evaluations of a constant polynomial.
    proof {
        let lf = log2(folded@.len() as nat);
        lemma_pow2_log2(folded@.len() as nat);
        crate::bits::lemma_exp2_mono(lb, lf);
        if lf > lb {
            crate::bits::lemma_exp2_strict(lb, lf);
        }
        assert(lf == lb);
        assert(la * betas.len() == l0 - lb);
        vstd::arithmetic::div_mod::lemma_div_multiples_vanish(betas.len() as int, la as int);
        vstd::arithmetic::mul::lemma_mul_is_commutative(la as int, betas.len() as int);
        assert(betas.len() == num_rounds(inputs@[0]@.len(), lb, la));
    }
    let final_poly = match final_poly_of(&folded) {
        Ok(x) => x,
        Err(e) => {
            proof {
                assert(commit_log_complete::<M::Commitment, M::ProverData, M::Proof, C::Witness>(
                    t.calls@, base, ivals, betas, commits@, data@, la));
            }
            return Err(e);
        },
    };
    t.observe_ext_element(final_poly);
    Ok(CommitPhaseResult { commits, data, final_poly, betas: Ghost(betas) })
}


// ---------------------------------------------------------------------------------------------
// The normalize phase
/// The number of folds that bring an input of log-height `l` to a log-degree that is a
/// multiple of `log_arity` above `log_blowup`.
pub open spec fn num_normalize_folds(l: nat, log_blowup: nat, log_arity: nat) -> nat {
    ((l - log_blowup) % (log_arity as int)) as nat
}

/// The log-heights of the inputs that the normalize phase commits to and folds, in order: those
/// whose number of normalizing folds is not zero.
pub open spec fn normalized_heights(inputs: Seq<Seq<int>>, log_blowup: nat, log_arity: nat) -> Seq<nat>
    decreases inputs.len(),
{
    if inputs.len() == 0 {
        Seq::empty()
    } else {
        let prev = normalized_heights(inputs.drop_last(), log_blowup, log_arity);
        let l = log2(inputs.last().len());
        if num_normalize_folds(l, log_blowup, log_arity) != 0 {
            prev.push(l)
        } else {
            prev
        }
    }
}

/// The calls of the normalize phase on `inputs`, with challenges `betas` (one per input),
/// commitments `commits` and prover data `data` (one per input that is folded): each input
/// with a nonzero number of normalizing folds is committed with rows of `2^num_folds` entries,
/// its commitment observed and its challenge drawn.
pub open spec fn normalize_log<Cm, D, P, W>(
    inputs: Seq<Seq<int>>,
    betas: Seq<int>,
    commits: Seq<(Cm, usize)>,
    data: Seq<D>,
    log_blowup: nat,
    log_arity: nat,
) -> Seq<Call<Cm, D, P, W>>
    decreases inputs.len(),
{
    if inputs.len() == 0 {
        Seq::empty()
    } else {
        let k = normalized_heights(inputs.drop_last(), log_blowup, log_arity).len() as int;
        let prev = normalize_log(
            inputs.drop_last(),
            betas.drop_last(),
            commits.take(k),
            data.take(k),
            log_blowup,
            log_arity,
        );
        let nf = num_normalize_folds(log2(inputs.last().len()), log_blowup, log_arity);
        if nf != 0 {
            prev + seq![
                Call::Commit(inputs.last(), exp2(nf), commits[k].0, data[k]),
                Call::Observe(commits[k].0),
                Call::SampleExt(fp_of(betas.last())),
            ]
        } else {
            prev
        }
    }
}

/// With no input that needs folding, no height is normalized.
proof fn lemma_normalized_heights_empty(inputs: Seq<Seq<int>>, log_blowup: nat, log_arity: nat)
    requires
        forall|j: int| 0 <= j < inputs.len() ==> num_normalize_folds(log2(#[trigger] inputs[j].len()), log_blowup, log_arity) == 0,
    ensures
        normalized_heights(inputs, log_blowup, log_arity).len() == 0,
    decreases inputs.len(),
{
    if inputs.len() > 0 {
        assert forall|j: int| 0 <= j < inputs.drop_last().len() implies num_normalize_folds(
            log2(#[trigger] inputs.drop_last()[j].len()),
            log_blowup,
            log_arity,
        ) == 0 by {
            assert(inputs.drop_last()[j] == inputs[j]);
        }
        lemma_normalized_heights_empty(inputs.drop_last(), log_blowup, log_arity);
        assert(inputs.last() == inputs[inputs.len() - 1]);
    }
}

/// When the longest input has `2^log_blowup` entries, no input needs folding.
proof fn lemma_no_folds_at_blowup(inputs: Seq<Vec<Fp>>, log_blowup: nat, log_arity: nat)
    requires
        1 <= log_arity,
        prover_inputs_ok(inputs, log_blowup),
        sorted_descending(inputs),
        log2(inputs[0]@.len()) == log_blowup,
    ensures
        forall|j: int| 0 <= j < inputs.len() ==> num_normalize_folds(log2(#[trigger] vvals(inputs)[j].len()), log_blowup, log_arity) == 0,
        normalized_heights(vvals(inputs), log_blowup, log_arity).len() == 0,
{
    assert forall|j: int| 0 <= j < inputs.len() implies num_normalize_folds(log2(#[trigger] vvals(inputs)[j].len()), log_blowup, log_arity) == 0 by {
        assert(vvals(inputs)[j].len() == inputs[j]@.len());
        lemma_pow2_log2(inputs[j]@.len());
        lemma_pow2_log2(inputs[0]@.len());
        if j > 0 {
            assert(inputs[j]@.len() <= inputs[0]@.len());
        }
        crate::bits::lemma_exp2_strict_inv(log2(inputs[j]@.len()), log2(inputs[0]@.len()));
        assert(log2(inputs[j]@.len()) == log_blowup);
        vstd::arithmetic::div_mod::lemma_small_mod(0, log_arity);
    }
    lemma_normalized_heights_empty(vvals(inputs), log_blowup, log_arity);
}

/// An input that needs folding makes the list of normalized heights non-empty.
proof fn lemma_normalized_heights_nonempty(inputs: Seq<Seq<int>>, j: int, log_blowup: nat, log_arity: nat)
    requires
        0 <= j < inputs.len(),
        num_normalize_folds(log2(inputs[j].len()), log_blowup, log_arity) != 0,
    ensures
        normalized_heights(inputs, log_blowup, log_arity).len() > 0,
    decreases inputs.len(),
{
    if j < inputs.len() - 1 {
        assert(inputs.drop_last()[j] == inputs[j]);
        lemma_normalized_heights_nonempty(inputs.drop_last(), j, log_blowup, log_arity);
    }
}

/// What an input contributes to the normalized inputs: itself, or its fold by
/// `2^num_folds` with the challenge `beta`.
pub open spec fn normalized_contribution(c: Seq<int>, beta: int, log_blowup: nat, log_arity: nat) -> Seq<int> {
    let n = num_normalize_folds(log2(c.len()), log_blowup, log_arity);
    if n == 0 {
        c
    } else {
        fold_spec(c, beta, n)
    }
}

/// The slot that an input of log-height `l` goes to: its log-height after normalization.
pub open spec fn normalize_slot(l: nat, log_blowup: nat, log_arity: nat) -> nat {
    (l - num_normalize_folds(l, log_blowup, log_arity)) as nat
}

/// The 32 slots of normalized inputs after the first `inputs.len()` inputs, with challenges
/// `betas` (one per input; the inputs that need no folding ignore theirs): each input's
/// contribution is added to its slot, or fills it when it is empty. (Slots beyond 31 do not
/// occur for the inputs that the prover accepts.)
pub open spec fn normalize_slots(inputs: Seq<Seq<int>>, betas: Seq<int>, log_blowup: nat, log_arity: nat) -> Seq<Option<Seq<int>>>
    decreases inputs.len(),
{
    if inputs.len() == 0 {
        Seq::new(32, |s: int| None::<Seq<int>>)
    } else {
        let prev = normalize_slots(inputs.drop_last(), betas.drop_last(), log_blowup, log_arity);
        let c = normalized_contribution(inputs.last(), betas.last(), log_blowup, log_arity);
        let t = normalize_slot(log2(inputs.last().len()), log_blowup, log_arity) as int;
        if t < 32 {
            prev.update(
                t,
                match prev[t] {
                    Some(v) => Some(vadd(v, c)),
                    None => Some(c),
                },
            )
        } else {
            prev
        }
    }
}

/// Longer inputs go to higher slots.
pub(crate) proof fn lemma_slot_monotone(l: nat, m: nat, log_blowup: nat, log_arity: nat)
    requires
        log_blowup <= l <= m,
        log_arity >= 1,
    ensures
        normalize_slot(l, log_blowup, log_arity) <= normalize_slot(m, log_blowup, log_arity),
        normalize_slot(m, log_blowup, log_arity) == log_blowup + log_arity * ((m - log_blowup) / (log_arity as int)),
{
    vstd::arithmetic::div_mod::lemma_fundamental_div_mod((l - log_blowup) as int, log_arity as int);
    vstd::arithmetic::div_mod::lemma_fundamental_div_mod((m - log_blowup) as int, log_arity as int);
    vstd::arithmetic::div_mod::lemma_div_is_ordered((l - log_blowup) as int, (m - log_blowup) as int, log_arity as int);
    vstd::arithmetic::mul::lemma_mul_inequality(
        (l - log_blowup) as int / log_arity as int,
        (m - log_blowup) as int / log_arity as int,
        log_arity as int,
    );
    vstd::arithmetic::mul::lemma_mul_is_commutative((l - log_blowup) as int / log_arity as int, log_arity as int);
    vstd::arithmetic::mul::lemma_mul_is_commutative((m - log_blowup) as int / log_arity as int, log_arity as int);
    vstd::arithmetic::div_mod::lemma_mod_decreases((l - log_blowup) as nat, log_arity as nat);
    vstd::arithmetic::div_mod::lemma_mod_decreases((m - log_blowup) as nat, log_arity as nat);
}

proof fn lemma_normalize_slots_len(inputs: Seq<Seq<int>>, betas: Seq<int>, log_blowup: nat, log_arity: nat)
    ensures
        normalize_slots(inputs, betas, log_blowup, log_arity).len() == 32,
    decreases inputs.len(),
{
    if inputs.len() > 0 {
        lemma_normalize_slots_len(inputs.drop_last(), betas.drop_last(), log_blowup, log_arity);
    }
}

/// The filled slots, from the highest to the lowest.
pub open spec fn slots_descending(slots: Seq<Option<Seq<int>>>) -> Seq<Seq<int>>
    decreases slots.len(),
{
    if slots.len() == 0 {
        Seq::empty()
    } else {
        let rest = slots_descending(slots.drop_last());
        match slots.last() {
            Some(v) => seq![v] + rest,
            None => rest,
        }
    }
}

/// The lengths of the vectors do not increase.
pub open spec fn sorted_descending(inputs: Seq<Vec<Fp>>) -> bool {
    forall|j: int, k: int|
        0 <= j < k < inputs.len() ==> (#[trigger] inputs[k])@.len() <= (#[trigger] inputs[j])@.len()
}

/// The inputs that the prover accepts: at least one, each of a power-of-two length between
/// `2^log_blowup` and `2^27`, of canonical elements.
pub open spec fn prover_inputs_ok(inputs: Seq<Vec<Fp>>, log_blowup: nat) -> bool {
    &&& inputs.len() >= 1
    &&& forall|j: int|
        0 <= j < inputs.len() ==> is_pow2((#[trigger] inputs[j])@.len()) && log_blowup <= log2(
            inputs[j]@.len(),
        ) <= 27 && all_wf(inputs[j]@)
}

/// What the normalize phase hands on.
struct NormalizePhaseResult<C, D> {
    commits: Vec<(C, usize)>,
    data: Vec<D>,
    normalized_inputs: Vec<Vec<Fp>>,
    betas: Ghost<Seq<int>>,
}

/// The slots as sequences of values.
spec fn slot_vals(b: Seq<Option<Vec<Fp>>>) -> Seq<Option<Seq<int>>> {
    b.map_values(|o: Option<Vec<Fp>>| match o {
        Some(v) => Some(vals(v@)),
        None => None,
    })
}

/// A filled slot `s` holds `2^s` canonical values, and `s` is on the ladder.
spec fn slots_ok(b: Seq<Option<Vec<Fp>>>, log_blowup: nat, log_arity: nat) -> bool {
    &&& b.len() == 32
    &&& forall|s: int|
        0 <= s < 32 ==> ((#[trigger] b[s]) matches Some(v) ==> v@.len() == exp2(s as nat)
            && all_wf(v@) && on_ladder(exp2(s as nat), log_blowup, log_arity) && s <= 27)
}

/// The normalize phase: each input whose log-degree is not a multiple of `log_arity` (above
/// `log_blowup`) is committed and folded down to the next such log-degree; inputs that end up
/// of the same length are added together. The normalized inputs come out from the longest to
/// the shortest.
#[verifier::rlimit(50)]
fn normalize_phase<M: FriMmcs, C: FriChallenger<M::Commitment>>(
    config: &FriConfig<M>,
    inputs: &Vec<Vec<Fp>>,
    tr: &mut Transcript<C, M::Commitment, M::ProverData, M::Proof, C::Witness>,
) -> (r: Result<NormalizePhaseResult<M::Commitment, M::ProverData>, FriError>)
    requires
        1 <= config.log_arity,
        config.log_blowup <= 27,
        prover_inputs_ok(inputs@, config.log_blowup as nat),
        sorted_descending(inputs@),
    ensures
        r matches Ok(res) ==> {
            &&& res.betas@.len() == inputs@.len()
            &&& all_canon(res.betas@)
            &&& vvals(res.normalized_inputs@) == slots_descending(
                normalize_slots(vvals(inputs@), res.betas@, config.log_blowup as nat, config.log_arity as nat),
            )
            &&& commit_inputs_ok(res.normalized_inputs@, config.log_blowup as nat, config.log_arity as nat)
            &&& log2(res.normalized_inputs@[0]@.len()) == normalize_slot(
                log2(inputs@[0]@.len()),
                config.log_blowup as nat,
                config.log_arity as nat,
            )
            &&& res.commits@.len() == res.data@.len()
            &&& res.commits@.len() == normalized_heights(vvals(inputs@), config.log_blowup as nat, config.log_arity as nat).len()
            &&& forall|k: int| 0 <= k < res.commits@.len() ==> (#[trigger] res.commits@[k]).1 == normalized_heights(
                vvals(inputs@),
                config.log_blowup as nat,
                config.log_arity as nat,
            )[k]
            &&& forall|k: int| 0 <= k < res.commits@.len() ==> {
                let l = (#[trigger] res.commits@[k]).1 as nat;
                &&& config.log_blowup <= l <= log2(inputs@[0]@.len())
                &&& num_normalize_folds(l, config.log_blowup as nat, config.log_arity as nat) != 0
            }
            &&& forall|j: int|
                0 <= j < inputs@.len() && num_normalize_folds(
                    log2(inputs@[j]@.len()),
                    config.log_blowup as nat,
                    config.log_arity as nat,
                ) == 0 ==> #[trigger] res.betas@[j] == 0
            &&& final(tr).calls@ == old(tr).calls@ + normalize_log::<M::Commitment, M::ProverData, M::Proof, C::Witness>(
                vvals(inputs@),
                res.betas@,
                res.commits@,
                res.data@,
                config.log_blowup as nat,
                config.log_arity as nat,
            )
        },
        normalized_heights(vvals(inputs@), config.log_blowup as nat, config.log_arity as nat).len() == 0 ==> r is Ok,
        r matches Err(e) ==> e == FriError::NonCanonicalChallenge && exists|
            j: int,
            betas: Seq<int>,
            commits: Seq<(M::Commitment, usize)>,
            data: Seq<M::ProverData>,
            c: M::Commitment,
            d: M::ProverData,
            x: Fp,
        |
            0 <= j < inputs@.len() && num_normalize_folds(
                log2(inputs@[j]@.len()),
                config.log_blowup as nat,
                config.log_arity as nat,
            ) != 0 && !x.wf() && #[trigger] final(tr).calls@ == old(tr).calls@ + normalize_log::<M::Commitment, M::ProverData, M::Proof, C::Witness>(
                vvals(inputs@).take(j),
                betas,
                commits,
                data,
                config.log_blowup as nat,
                config.log_arity as nat,
            ) + seq![
                Call::Commit(
                    vals(inputs@[j]@),
                    exp2(num_normalize_folds(log2(inputs@[j]@.len()), config.log_blowup as nat, config.log_arity as nat)),
                    c,
                    d,
                ),
                Call::Observe(c),
                Call::SampleExt(x),
            ],
{
    let ghost lb = config.log_blowup as nat;
    let ghost la = config.log_arity as nat;
    let ghost ivals = vvals(inputs@);
    let ghost base = old(tr).calls@;
    let log_blowup = config.log_blowup;
    let log_arity = config.log_arity;
    let mut commits: Vec<(M::Commitment, usize)> = Vec::new();
    let mut data: Vec<M::ProverData> = Vec::new();
    let mut slots: Vec<Option<Vec<Fp>>> = Vec::new();
    for s in 0..32usize
        invariant
            slots@.len() == s,
            forall|u: int| 0 <= u < s ==> (#[trigger] slots@[u]) is None,
    {
        slots.push(None);
    }
    let ghost mut betas: Seq<int> = Seq::empty();
    let ghost t0 = normalize_slot(log2(inputs@[0]@.len()), lb, la);
    proof {
        assert(slot_vals(slots@) =~= normalize_slots(ivals.subrange(0, 0), betas, lb, la));
        lemma_pow2_log2(inputs@[0]@.len());
        vstd::arithmetic::div_mod::lemma_mod_decreases((log2(inputs@[0]@.len()) - lb) as nat, la as nat);
    }
    for j in 0..inputs.len()
        invariant
            1 <= la == log_arity == config.log_arity,
            lb == log_blowup == config.log_blowup <= 27,
            ivals == vvals(inputs@),
            prover_inputs_ok(inputs@, lb),
            sorted_descending(inputs@),
            betas.len() == j,
            all_canon(betas),
            slots_ok(slots@, lb, la),
            slot_vals(slots@) == normalize_slots(ivals.subrange(0, j as int), betas, lb, la),
            t0 == normalize_slot(log2(inputs@[0]@.len()), lb, la),
            t0 < 32,
            forall|u: int| t0 < u < 32 ==> (#[trigger] slots@[u]) is None,
            j > 0 ==> slots@[t0 as int] is Some,
            commits@.len() == data@.len(),
            commits@.len() == normalized_heights(ivals.subrange(0, j as int), lb, la).len(),
            base == old(tr).calls@,
            tr.calls@ == base + normalize_log::<M::Commitment, M::ProverData, M::Proof, C::Witness>(
                ivals.subrange(0, j as int),
                betas,
                commits@,
                data@,
                lb,
                la,
            ),
            forall|j2: int|
                0 <= j2 < j && num_normalize_folds(log2(inputs@[j2]@.len()), lb, la) == 0 ==> #[trigger] betas[j2] == 0,
            forall|k: int| 0 <= k < commits@.len() ==> (#[trigger] commits@[k]).1 == normalized_heights(
                ivals.subrange(0, j as int),
                lb,
                la,
            )[k],
            forall|k: int| 0 <= k < commits@.len() ==> {
                let l = (#[trigger] commits@[k]).1 as nat;
                &&& lb <= l <= log2(inputs@[0]@.len())
                &&& num_normalize_folds(l, lb, la) != 0
            },
    {
        let ghost cj = ivals[j as int];
        proof {
            lemma_pow2_log2(inputs@[j as int]@.len());
            lemma_pow2_log2(inputs@[0]@.len());
            crate::bits::lemma_exp2_strict_inv(log2(inputs@[j as int]@.len()), log2(inputs@[0]@.len()));
        }
        proof {
            assert(cj == vals(inputs@[j as int]@));
        }
        let log_height = p3_util::log2_strict_usize(inputs[j].len());
        let num_folds = (log_height - log_blowup) % log_arity;
        let ghost mut beta_j: int = 0;
        let ghost cs_before = commits@;
        let ghost ds_before = data@;
        let input = if num_folds == 0 {
            copy_vec(&inputs[j])
        } else {
            proof {
                lemma_pow2_log2(inputs@[j as int]@.len());
                vstd::arithmetic::div_mod::lemma_mod_bound((log_height - log_blowup) as int, log_arity as int);
                vstd::arithmetic::div_mod::lemma_mod_decreases((log_height - log_blowup) as nat, log_arity as nat);
                crate::bits::lemma_exp2_divides(num_folds as nat, log_height as nat);
                lemma_exp2_mono(num_folds as nat, 31);
                lemma_exp2_values();
                lemma_exp2_pos(num_folds as nat);
                vstd::arithmetic::div_mod::lemma_mod_multiples_basic(
                    exp2((log_height - num_folds) as nat) as int,
                    exp2(num_folds as nat) as int,
                );
                vstd::arithmetic::div_mod::lemma_div_by_multiple(
                    exp2((log_height - num_folds) as nat) as int,
                    exp2(num_folds as nat) as int,
                );
                lemma_log2_exp2((log_height - num_folds) as nat);
            }
            let width = shl1(num_folds);
            let leaves = crate::matrix::matrix_new(copy_vec(&inputs[j]), width);
            let ghost calls_before = tr.calls@;
            proof {
                assert(crate::matrix::matrix_width(leaves) == exp2(num_folds as nat));
                assert(vals(crate::matrix::matrix_values(leaves)) == vals(inputs@[j as int]@));
            }
            let (commit, prover_data) = tr.commit_matrix(&config.mmcs, leaves);
            tr.observe(&commit);
            let ghost the_commit = commit;
            let ghost the_data = prover_data;
            let ghost calls_mid = tr.calls@;
            proof {
                assert(calls_mid == calls_before.push(
                    Call::Commit(vals(inputs@[j as int]@), exp2(num_folds as nat), the_commit, the_data),
                ).push(Call::Observe(the_commit)));
            }
            commits.push((commit, log_height));
            data.push(prover_data);
            let beta = match sample_challenge(tr) {
                Ok(b) => b,
                Err(e) => {
                    proof {
                        let x = tr.calls@.last()->SampleExt_0;
                        assert(tr.calls@ =~= calls_mid.push(Call::SampleExt(x)));
                        assert(ivals.take(j as int) =~= ivals.subrange(0, j as int));
                        assert(ivals[j as int] == vals(inputs@[j as int]@));
                        lemma_normalized_heights_nonempty(ivals, j as int, lb, la);
                        assert(tr.calls@ =~= old(tr).calls@ + normalize_log::<M::Commitment, M::ProverData, M::Proof, C::Witness>(
                            ivals.take(j as int),
                            betas,
                            cs_before,
                            ds_before,
                            lb,
                            la,
                        ) + seq![
                            Call::Commit(vals(inputs@[j as int]@), exp2(num_folds as nat), the_commit, the_data),
                            Call::Observe(the_commit),
                            Call::SampleExt(x),
                        ]);
                    }
                    return Err(e);
                },
            };
            let ghost calls_after = tr.calls@;
            proof {
                beta_j = beta.val();
                assert(fp_of(beta_j) == beta);
                assert(calls_after =~= calls_mid.push(Call::SampleExt(beta)));
                assert(commits@.last().0 == the_commit);
                assert(data@.last() == the_data);
                assert(tr.calls@ =~= base + normalize_log::<M::Commitment, M::ProverData, M::Proof, C::Witness>(
                    ivals.subrange(0, j as int),
                    betas,
                    cs_before,
                    ds_before,
                    lb,
                    la,
                ) + seq![
                    Call::Commit(vals(inputs@[j as int]@), exp2(num_folds as nat), commits@.last().0, data@.last()),
                    Call::Observe(commits@.last().0),
                    Call::SampleExt(fp_of(beta_j)),
                ]);
            }
            let leaves = crate::matrix::matrix_new(copy_vec(&inputs[j]), width);
            assert(crate::matrix::matrix_height(leaves) == exp2((log_height - num_folds) as nat));
            crate::fold_even_odd::fold(leaves, beta, num_folds)
        };
        let t = log_height - num_folds;
        proof {
            lemma_pow2_log2(inputs@[j as int]@.len());
            assert(vals(input@) == normalized_contribution(cj, beta_j, lb, la));
            vstd::arithmetic::div_mod::lemma_mod_bound((log_height - log_blowup) as int, log_arity as int);
            // the slot is on the ladder
            vstd::arithmetic::div_mod::lemma_fundamental_div_mod((log_height - log_blowup) as int, log_arity as int);
            assert((t - lb) as int == la * ((log_height - lb) as int / la as int));
            vstd::arithmetic::div_mod::lemma_mod_multiples_basic((log_height - lb) as int / la as int, la as int);
            vstd::arithmetic::mul::lemma_mul_is_commutative((log_height - lb) as int / la as int, la as int);
            lemma_log2_exp2(t as nat);
            assert(input@.len() == exp2(t as nat)) by {
                if num_folds != 0 {
                    assert(vals(input@).len() == input@.len());
                }
            }
        }
        proof {
            vstd::arithmetic::div_mod::lemma_mod_decreases((log_height - log_blowup) as nat, log_arity as nat);
        }
        let new_slot = match &slots[t] {
            Some(v) => add_vectors(v, &input),
            None => input,
        };
        proof {
            assert(vals(new_slot@).len() == new_slot@.len());
            assert(new_slot@.len() == exp2(t as nat));
            assert(all_wf(new_slot@));
        }
        let ghost old_slots = slots@;
        slots.set(t, Some(new_slot));
        proof {
            let nb = betas.push(beta_j);
            assert(nb.drop_last() =~= betas);
            assert(ivals.subrange(0, j + 1).drop_last() =~= ivals.subrange(0, j as int));
            assert(ivals.subrange(0, j + 1).last() == cj);
            assert(cj.len() == inputs@[j as int]@.len());
            let k = normalized_heights(ivals.subrange(0, j as int), lb, la).len() as int;
            assert(commits@.take(k) =~= cs_before);
            assert(data@.take(k) =~= ds_before);
            assert(nb.last() == beta_j);
            if num_folds != 0 {
                assert(commits@[k] == commits@.last());
                assert(data@[k] == data@.last());
            }
            assert(tr.calls@ =~= base + normalize_log::<M::Commitment, M::ProverData, M::Proof, C::Witness>(
                ivals.subrange(0, j + 1),
                nb,
                commits@,
                data@,
                lb,
                la,
            ));
            betas = nb;
            assert(slot_vals(slots@) =~= normalize_slots(ivals.subrange(0, j + 1), betas, lb, la));
            lemma_slot_monotone(log2(inputs@[j as int]@.len()), log2(inputs@[0]@.len()), lb, la);
            assert forall|u: int| t0 < u < 32 implies (#[trigger] slots@[u]) is None by {
                assert(slots@[u] == old_slots[u]);
            }
            assert forall|s: int| 0 <= s < 32 implies ((#[trigger] slots@[s]) matches Some(v) ==> v@.len()
                == exp2(s as nat) && all_wf(v@) && on_ladder(exp2(s as nat), lb, la) && s <= 27) by {
                if s != t {
                    assert(slots@[s] == old_slots[s]);
                }
            }
        }
    }
    proof {
        assert(ivals.subrange(0, inputs@.len() as int) =~= ivals);
    }
    // the filled slots, from the highest to the lowest
    let mut normalized_inputs: Vec<Vec<Fp>> = Vec::new();
    let mut s: usize = 32;
    let ghost all_slots = slot_vals(slots@);
    let ghost filled = normalize_slot(log2(inputs@.last()@.len()), lb, la) as int;
    let ghost mut idxs: Seq<int> = Seq::empty();
    proof {
        assert(all_slots.subrange(0, 32) =~= all_slots);
        assert(slots_descending(all_slots.subrange(0, 32)) =~= Seq::<Seq<int>>::empty() + slots_descending(all_slots));
        assert(ivals.drop_last().len() == inputs@.len() - 1);
        lemma_pow2_log2(inputs@.last()@.len());
        vstd::arithmetic::div_mod::lemma_mod_bound((log2(inputs@.last()@.len()) - lb) as int, la as int);
        vstd::arithmetic::div_mod::lemma_mod_decreases((log2(inputs@.last()@.len()) - lb) as nat, la as nat);
        assert(0 <= filled < 32);
        assert(ivals.last() == vals(inputs@.last()@));
        assert(ivals.last().len() == inputs@.last()@.len());
        lemma_normalize_slots_len(ivals.drop_last(), betas.drop_last(), lb, la);
        assert(all_slots[filled] is Some);
        assert(slots@[filled] is Some);
    }
    while s > 0
        invariant
            s <= 32,
            slots_ok(slots@, lb, la),
            all_slots == slot_vals(slots@),
            vvals(normalized_inputs@) + slots_descending(all_slots.subrange(0, s as int))
                == slots_descending(all_slots),
            idxs.len() == normalized_inputs@.len(),
            forall|q: int|
                0 <= q < idxs.len() ==> s <= #[trigger] idxs[q] < 32 && (slots@[idxs[q]] matches Some(
                    v,
                ) && v@ == normalized_inputs@[q]@),
            forall|q: int, q2: int| 0 <= q < q2 < idxs.len() ==> #[trigger] idxs[q2] < #[trigger] idxs[q],
            0 <= filled < 32,
            slots@[filled] is Some,
            filled >= s ==> normalized_inputs@.len() >= 1,
            t0 < 32,
            slots@[t0 as int] is Some,
            forall|u: int| t0 < u < 32 ==> (#[trigger] slots@[u]) is None,
            s > t0 ==> normalized_inputs@.len() == 0,
            s <= t0 ==> normalized_inputs@.len() >= 1,
            normalized_inputs@.len() >= 1 ==> idxs[0] == t0,
        decreases s,
    {
        s = s - 1;
        let ghost before = vvals(normalized_inputs@);
        proof {
            assert(all_slots.subrange(0, s + 1).drop_last() =~= all_slots.subrange(0, s as int));
            assert(all_slots.subrange(0, s + 1).last() == all_slots[s as int]);
        }
        match &slots[s] {
            Some(v) => {
                let ghost vv = v@;
                normalized_inputs.push(copy_vec(v));
                proof {
                    idxs = idxs.push(s as int);
                    assert(vvals(normalized_inputs@) =~= before.push(vals(vv)));
                    assert(all_slots[s as int] == Some(vals(vv)));
                    assert(before.push(vals(vv)) + slots_descending(all_slots.subrange(0, s as int))
                        =~= before + (seq![vals(vv)] + slots_descending(all_slots.subrange(0, s as int))));
                }
            },
            None => {
                proof {
                    assert(all_slots[s as int] is None);
                }
            },
        }
    }
    proof {
        assert(all_slots.subrange(0, 0) =~= Seq::<Option<Seq<int>>>::empty());
        assert(vvals(normalized_inputs@) =~= slots_descending(all_slots));
        let out = normalized_inputs@;
        assert forall|q: int| 0 <= q < out.len() implies on_ladder((#[trigger] out[q])@.len(), lb, la)
            && all_wf(out[q]@) && out[q]@.len() == exp2(idxs[q] as nat) by {
            assert(slots@[idxs[q]] is Some);
        }
        assert forall|q: int, r2: int| 0 <= q < r2 < out.len() implies (#[trigger] out[r2])@.len()
            < (#[trigger] out[q])@.len() by {
            assert(idxs[r2] < idxs[q]);
            crate::bits::lemma_exp2_strict(idxs[r2] as nat, idxs[q] as nat);
        }
        assert(slots@[idxs[0]] is Some);
        lemma_log2_exp2(idxs[0] as nat);
        assert(log2(out[0]@.len()) == t0);
    }
    Ok(NormalizePhaseResult { commits, data, normalized_inputs, betas: Ghost(betas) })
}


// ---------------------------------------------------------------------------------------------
/// The normalized inputs for the normalize-phase challenges `nbetas`.
pub open spec fn normalized_inputs_spec(inputs: Seq<Seq<int>>, nbetas: Seq<int>, log_blowup: nat, log_arity: nat) -> Seq<Seq<int>> {
    slots_descending(normalize_slots(inputs, nbetas, log_blowup, log_arity))
}

/// The codeword that the commit phase ends with, for the normalize-phase challenges `nbetas`
/// and the commit-phase challenges `cbetas`.
pub open spec fn final_codeword(inputs: Seq<Seq<int>>, nbetas: Seq<int>, cbetas: Seq<int>, log_blowup: nat, log_arity: nat) -> Seq<int> {
    commit_state(normalized_inputs_spec(inputs, nbetas, log_blowup, log_arity), cbetas, log_arity).0
}

/// The values of the inputs are sorted as the inputs are, with the same lengths.
proof fn lemma_sorted_vals(inputs: Seq<Vec<Fp>>)
    requires
        sorted_descending(inputs),
    ensures
        forall|j: int| 0 <= j < inputs.len() ==> (#[trigger] vvals(inputs)[j]).len() == inputs[j]@.len(),
        forall|j: int, k: int|
            0 <= j < k < inputs.len() ==> (#[trigger] vvals(inputs)[k]).len() <= (#[trigger] vvals(inputs)[j]).len(),
{
    assert forall|j: int, k: int| 0 <= j < k < inputs.len() implies (#[trigger] vvals(inputs)[k]).len()
        <= (#[trigger] vvals(inputs)[j]).len() by {
        assert(inputs[k]@.len() <= inputs[j]@.len());
    }
}

/// The sequences of `blocks`, one after the other.
pub open spec fn concat<X>(blocks: Seq<Seq<X>>) -> Seq<X>
    decreases blocks.len(),
{
    if blocks.len() == 0 {
        Seq::empty()
    } else {
        concat(blocks.drop_last()) + blocks.last()
    }
}

/// The calls that draw the query indices `idx`, each of `bits` bits.
pub open spec fn sample_log<Cm, D, P, W>(bits: usize, idx: Seq<usize>) -> Seq<Call<Cm, D, P, W>> {
    Seq::new(idx.len(), |q: int| Call::SampleBits(bits, idx[q]))
}

/// Block `q` of `blocks` opens, for each normalize-phase commitment `k` (of log-height `h`,
/// folded `nf` times), row `(idx[q] >> (l0 - h)) >> nf` of the data `ndata[k]`, and opening `k`
/// of `answers[q]` answers query `idx[q] >> (l0 - h)` from it.
pub open spec fn normalize_queries_answered<Cm, D, P, W>(
    blocks: Seq<Seq<Call<Cm, D, P, W>>>,
    idx: Seq<usize>,
    l0: nat,
    commits: Seq<(Cm, usize)>,
    ndata: Seq<D>,
    lb: nat,
    la: nat,
    answers_: Seq<NormalizeQueryProof<P>>,
) -> bool {
    &&& blocks.len() == idx.len()
    &&& answers_.len() == idx.len()
    &&& forall|q: int|
        0 <= q < idx.len() ==> (#[trigger] blocks[q]).len() == commits.len()
            && answers_[q].normalize_phase_openings@.len() == commits.len()
    &&& forall|q: int, k: int|
        #![trigger blocks[q][k]]
        0 <= q < idx.len() && 0 <= k < commits.len() ==> {
            let h = commits[k].1 as nat;
            let ix = (idx[q] as nat) / exp2((l0 - h) as nat);
            let nf = num_normalize_folds(h, lb, la);
            &&& opens_row(blocks[q][k], ndata[k], ix, nf)
            &&& answers(blocks[q][k], ix, nf, answers_[q].normalize_phase_openings@[k])
        }
}

/// Block `q` of `blocks` opens, for each commit-phase layer `i`, row
/// `((idx[q] >> shift) >> (i * la)) >> la` of the data `cdata[i]`, and opening `i` of query
/// proof `q` answers query `(idx[q] >> shift) >> (i * la)` from it.
pub open spec fn commit_queries_answered<Cm, D, P, W, I>(
    blocks: Seq<Seq<Call<Cm, D, P, W>>>,
    idx: Seq<usize>,
    shift: nat,
    cdata: Seq<D>,
    la: nat,
    qps: Seq<QueryProof<P, I>>,
) -> bool {
    &&& blocks.len() == idx.len()
    &&& qps.len() == idx.len()
    &&& forall|q: int|
        0 <= q < idx.len() ==> (#[trigger] blocks[q]).len() == cdata.len()
            && qps[q].commit_phase_openings@.len() == cdata.len()
    &&& forall|q: int, i: int|
        #![trigger blocks[q][i]]
        0 <= q < idx.len() && 0 <= i < cdata.len() ==> {
            let ix = ((idx[q] as nat) / exp2(shift)) / exp2((i * la) as nat);
            &&& opens_row(blocks[q][i], cdata[i], ix, la)
            &&& answers(blocks[q][i], ix, la, qps[q].commit_phase_openings@[i])
        }
}

/// The calls of a proof that `prove` returned: the normalize phase with challenges `nbetas`,
/// the commit phase on the normalized inputs with challenges `cbetas` (whose final codeword is
/// constant, of value the final polynomial), the observation of the final polynomial, the grinding whose witness the proof holds, the draws of the query
/// indices `idx` of `log2(len)` bits, then the openings of the normalize-phase commitments
/// and of the commit-phase layers for each query.
pub open spec fn prove_transcript<Cm, D, P, W, I>(
    calls: Seq<Call<Cm, D, P, W>>,
    base: Seq<Call<Cm, D, P, W>>,
    inputs: Seq<Seq<int>>,
    lb: nat,
    la: nat,
    pow_bits: usize,
    proof: FriProof<Cm, P, W, I>,
    nbetas: Seq<int>,
    ndata: Seq<D>,
    cbetas: Seq<int>,
    cdata: Seq<D>,
    idx: Seq<usize>,
    nblocks: Seq<Seq<Call<Cm, D, P, W>>>,
    cblocks: Seq<Seq<Call<Cm, D, P, W>>>,
) -> bool {
    let l0 = log2(inputs[0].len());
    &&& nbetas.len() == inputs.len()
    &&& all_canon(nbetas)
    &&& all_canon(cbetas)
    &&& ndata.len() == proof.normalize_phase_commits@.len()
    &&& cdata.len() == proof.commit_phase_commits@.len()
    &&& cbetas.len() == proof.commit_phase_commits@.len()
    &&& final_codeword(inputs, nbetas, cbetas, lb, la).len() == exp2(lb)
    &&& is_constant(final_codeword(inputs, nbetas, cbetas, lb, la))
    &&& final_codeword(inputs, nbetas, cbetas, lb, la)[0] == proof.final_poly.val()
    &&& calls == base + normalize_log::<Cm, D, P, W>(inputs, nbetas, proof.normalize_phase_commits@, ndata, lb, la)
        + commit_log::<Cm, D, P, W>(
        normalized_inputs_spec(inputs, nbetas, lb, la),
        cbetas,
        proof.commit_phase_commits@,
        cdata,
        la,
    ) + seq![Call::ObserveExt(proof.final_poly), Call::Grind(pow_bits, proof.pow_witness)]
        + sample_log::<Cm, D, P, W>(l0 as usize, idx) + concat(nblocks) + concat(cblocks)
    &&& normalize_queries_answered(nblocks, idx, l0, proof.normalize_phase_commits@, ndata, lb, la, proof.normalize_query_proofs@)
    &&& commit_queries_answered(cblocks, idx, num_normalize_folds(l0, lb, la), cdata, la, proof.query_proofs@)
}

/// The last call recorded after `base` drew a challenge that is not canonical.
pub open spec fn ends_with_bad_challenge<Cm, D, P, W>(calls: Seq<Call<Cm, D, P, W>>, base: Seq<Call<Cm, D, P, W>>) -> bool {
    &&& calls.len() > base.len()
    &&& (calls.last() matches Call::SampleExt(x) && !x.wf())
}

/// `call` commits to a matrix of rows of `width` entries, and the commitment scheme gave the
/// prover data `data` for it.
pub open spec fn commits_with<Cm, D, P, W>(call: Call<Cm, D, P, W>, data: D, width: nat) -> bool {
    call matches Call::Commit(values, w, c, d) && w == width && d == data
}

/// From position `lo` on, `calls` holds the commitment of a matrix of rows of `width` entries
/// that gave the prover data `data`.
pub open spec fn commit_recorded<Cm, D, P, W>(calls: Seq<Call<Cm, D, P, W>>, lo: int, data: D, width: nat) -> bool {
    exists|m: int| lo <= m < calls.len() && #[trigger] commits_with(calls[m], data, width)
}

/// The last call recorded after `base` opens the prover data of a matrix committed after
/// `base`, and what it gave is not one row of that matrix's width. (Should the commitment
/// scheme give equal prover data for two matrices, either of them may be the one meant.)
pub open spec fn ends_with_bad_opening<Cm, D, P, W>(calls: Seq<Call<Cm, D, P, W>>, base: Seq<Call<Cm, D, P, W>>) -> bool {
    &&& calls.len() > base.len()
    &&& calls.last() matches Call::Open(row, d, rows, pf) && exists|m: int, w: nat|
        base.len() <= m < calls.len() - 1 && #[trigger] commits_with(calls[m], d, w) && !(rows.len() == 1
            && rows[0].len() == w)
}

/// A commitment recorded in `calls` stays recorded in a longer record that begins with
/// `calls`, and from any earlier position.
proof fn lemma_commit_recorded_prefix<Cm, D, P, W>(
    pre: Seq<Call<Cm, D, P, W>>,
    calls: Seq<Call<Cm, D, P, W>>,
    lo: int,
    lo2: int,
    data: D,
    width: nat,
)
    requires
        commit_recorded(pre, lo, data, width),
        pre.len() <= calls.len(),
        calls.subrange(0, pre.len() as int) == pre,
        0 <= lo2 <= lo,
    ensures
        commit_recorded(calls, lo2, data, width),
{
    let m = choose|m: int| lo <= m < pre.len() && #[trigger] commits_with(pre[m], data, width);
    assert(calls[m] == calls.subrange(0, pre.len() as int)[m]);
    assert(commits_with(calls[m], data, width));
}

/// A commitment recorded in `log` is recorded in `base + log` from the end of `base` on.
proof fn lemma_commit_recorded_shift<Cm, D, P, W>(
    base: Seq<Call<Cm, D, P, W>>,
    log: Seq<Call<Cm, D, P, W>>,
    data: D,
    width: nat,
)
    requires
        commit_recorded(log, 0, data, width),
    ensures
        commit_recorded(base + log, base.len() as int, data, width),
{
    let m = choose|m: int| 0 <= m < log.len() && #[trigger] commits_with(log[m], data, width);
    assert((base + log)[base.len() + m] == log[m]);
    assert(commits_with((base + log)[base.len() + m], data, width));
}

/// An opening whose last call does not fit the width of the matrix committed with its data
/// (recorded after `base` and before the opening) ends the record badly.
proof fn lemma_ends_with_bad_opening<Cm, D, P, W>(
    calls: Seq<Call<Cm, D, P, W>>,
    base: Seq<Call<Cm, D, P, W>>,
    pre: Seq<Call<Cm, D, P, W>>,
    data: D,
    width: nat,
)
    requires
        commit_recorded(pre, base.len() as int, data, width),
        pre.len() < calls.len(),
        calls.subrange(0, pre.len() as int) == pre,
        calls.last() matches Call::Open(row, d, rows, pf) && d == data && !(rows.len() == 1 && rows[0].len()
            == width),
    ensures
        ends_with_bad_opening(calls, base),
{
    let lo = base.len() as int;
    let m = choose|m: int| lo <= m < pre.len() && #[trigger] commits_with(pre[m], data, width);
    assert(calls[m] == calls.subrange(0, pre.len() as int)[m]);
    assert(commits_with(calls[m], data, width));
}

/// From position `lo` on, `calls` holds the commitment of each input folded in the normalize
/// phase, with its prover data and rows of `2^num_folds` entries.
#[verifier::opaque]
spec fn normalize_commits_recorded<Cm, D, P, W>(
    calls: Seq<Call<Cm, D, P, W>>,
    lo: int,
    commits: Seq<(Cm, usize)>,
    data: Seq<D>,
    lb: nat,
    la: nat,
) -> bool {
    forall|k: int| 0 <= k < data.len() ==> #[trigger] commit_recorded(
        calls,
        lo,
        data[k],
        exp2(num_normalize_folds(commits[k].1 as nat, lb, la)),
    )
}

/// From position `lo` on, `calls` holds the commitment of each layer of the commit phase,
/// with its prover data and rows of `2^la` entries.
#[verifier::opaque]
spec fn commit_layers_recorded<Cm, D, P, W>(calls: Seq<Call<Cm, D, P, W>>, lo: int, data: Seq<D>, la: nat) -> bool {
    forall|i: int| 0 <= i < data.len() ==> #[trigger] commit_recorded(calls, lo, data[i], exp2(la))
}

/// The commitments of the normalize phase stay recorded in a longer record.
proof fn lemma_normalize_recorded_prefix<Cm, D, P, W>(
    pre: Seq<Call<Cm, D, P, W>>,
    calls: Seq<Call<Cm, D, P, W>>,
    lo: int,
    commits: Seq<(Cm, usize)>,
    data: Seq<D>,
    lb: nat,
    la: nat,
)
    requires
        normalize_commits_recorded(pre, lo, commits, data, lb, la),
        pre.len() <= calls.len(),
        calls.subrange(0, pre.len() as int) == pre,
        0 <= lo,
    ensures
        normalize_commits_recorded(calls, lo, commits, data, lb, la),
{
    reveal(normalize_commits_recorded);
    assert forall|k: int| 0 <= k < data.len() implies #[trigger] commit_recorded(
        calls,
        lo,
        data[k],
        exp2(num_normalize_folds(commits[k].1 as nat, lb, la)),
    ) by {
        lemma_commit_recorded_prefix(pre, calls, lo, lo, data[k], exp2(num_normalize_folds(commits[k].1 as nat, lb, la)));
    }
}

/// Each round of the commit phase commits to a matrix of rows of `2^log_arity` entries that
/// gave the prover data of that round.
proof fn lemma_commit_log_records<Cm, D, P, W>(
    inputs: Seq<Seq<int>>,
    betas: Seq<int>,
    commits: Seq<Cm>,
    data: Seq<D>,
    log_arity: nat,
    i: int,
)
    requires
        0 <= i < betas.len(),
        commits.len() == betas.len(),
        data.len() == betas.len(),
    ensures
        commit_recorded(commit_log::<Cm, D, P, W>(inputs, betas, commits, data, log_arity), 0, data[i], exp2(log_arity)),
    decreases betas.len(),
{
    let t = betas.len() - 1;
    let prev = commit_log::<Cm, D, P, W>(inputs, betas.drop_last(), commits.take(t), data.take(t), log_arity);
    let chunk = commit_round_calls::<Cm, D, P, W>(
        commit_state(inputs, betas.drop_last(), log_arity).0,
        log_arity,
        commits[t],
        data[t],
        betas[t],
    );
    let all = commit_log::<Cm, D, P, W>(inputs, betas, commits, data, log_arity);
    assert(all == prev + chunk);
    if i == t {
        assert(all[prev.len() as int] == chunk[0]);
        assert(commits_with(all[prev.len() as int], data[i], exp2(log_arity)));
    } else {
        lemma_commit_log_records::<Cm, D, P, W>(inputs, betas.drop_last(), commits.take(t), data.take(t), log_arity, i);
        assert(data.take(t)[i] == data[i]);
        assert(all.subrange(0, prev.len() as int) =~= prev);
        lemma_commit_recorded_prefix(prev, all, 0, 0, data[i], exp2(log_arity));
    }
}

/// Each input folded in the normalize phase is committed as a matrix of rows of
/// `2^num_folds` entries that gave its prover data.
proof fn lemma_normalize_log_records<Cm, D, P, W>(
    inputs: Seq<Seq<int>>,
    betas: Seq<int>,
    commits: Seq<(Cm, usize)>,
    data: Seq<D>,
    log_blowup: nat,
    log_arity: nat,
    k: int,
)
    requires
        commits.len() == normalized_heights(inputs, log_blowup, log_arity).len(),
        data.len() == commits.len(),
        0 <= k < data.len(),
    ensures
        commit_recorded(
            normalize_log::<Cm, D, P, W>(inputs, betas, commits, data, log_blowup, log_arity),
            0,
            data[k],
            exp2(num_normalize_folds(normalized_heights(inputs, log_blowup, log_arity)[k], log_blowup, log_arity)),
        ),
    decreases inputs.len(),
{
    let heights = normalized_heights(inputs, log_blowup, log_arity);
    let kk = normalized_heights(inputs.drop_last(), log_blowup, log_arity).len() as int;
    let prev = normalize_log::<Cm, D, P, W>(
        inputs.drop_last(),
        betas.drop_last(),
        commits.take(kk),
        data.take(kk),
        log_blowup,
        log_arity,
    );
    let all = normalize_log::<Cm, D, P, W>(inputs, betas, commits, data, log_blowup, log_arity);
    let l = log2(inputs.last().len());
    let nf = num_normalize_folds(l, log_blowup, log_arity);
    if nf != 0 && k == kk {
        assert(heights[k] == l);
        assert(all[prev.len() as int] == Call::<Cm, D, P, W>::Commit(inputs.last(), exp2(nf), commits[kk].0, data[kk]));
        assert(commits_with(all[prev.len() as int], data[k], exp2(nf)));
    } else {
        assert(k < kk);
        assert(heights[k] == normalized_heights(inputs.drop_last(), log_blowup, log_arity)[k]);
        lemma_normalize_log_records::<Cm, D, P, W>(
            inputs.drop_last(),
            betas.drop_last(),
            commits.take(kk),
            data.take(kk),
            log_blowup,
            log_arity,
            k,
        );
        assert(data.take(kk)[k] == data[k]);
        assert(all.subrange(0, prev.len() as int) =~= prev);
        lemma_commit_recorded_prefix(prev, all, 0, 0, data[k], exp2(num_normalize_folds(heights[k], log_blowup, log_arity)));
    }
}

/// The calls of a run that ended because the final codeword was not constant: the normalize
/// phase with challenges `nbetas`, then the commit phase with challenges `cbetas` whose final
/// codeword is not constant.
pub open spec fn not_constant_transcript<Cm, D, P, W>(
    calls: Seq<Call<Cm, D, P, W>>,
    base: Seq<Call<Cm, D, P, W>>,
    inputs: Seq<Seq<int>>,
    lb: nat,
    la: nat,
    nbetas: Seq<int>,
    ncommits: Seq<(Cm, usize)>,
    ndata: Seq<D>,
    cbetas: Seq<int>,
    ccommits: Seq<Cm>,
    cdata: Seq<D>,
) -> bool {
    &&& nbetas.len() == inputs.len()
    &&& all_canon(nbetas)
    &&& all_canon(cbetas)
    &&& cbetas.len() == (log2(inputs[0].len()) - lb) / (la as int)
    &&& !is_constant(final_codeword(inputs, nbetas, cbetas, lb, la))
    &&& calls == base + normalize_log::<Cm, D, P, W>(inputs, nbetas, ncommits, ndata, lb, la)
        + commit_log::<Cm, D, P, W>(normalized_inputs_spec(inputs, nbetas, lb, la), cbetas, ccommits, cdata, la)
}

/// Proves that the inputs (evaluations of polynomials, from the longest to the shortest)
/// are close to polynomials of low degree: the normalize phase, the commit phase, the
/// proof-of-work and the answers to `num_queries` queries.
#[verifier::rlimit(100)]
pub fn prove<M: FriMmcs, C: FriChallenger<M::Commitment>, InputProof, F: Fn(usize) -> InputProof>(
    config: &FriConfig<M>,
    inputs: Vec<Vec<Fp>>,
    challenger: &mut Transcript<C, M::Commitment, M::ProverData, M::Proof, C::Witness>,
    open_input: F,
) -> (r: Result<FriProof<M::Commitment, M::Proof, C::Witness, InputProof>, FriError>)
    requires
        1 <= config.log_arity,
        config.log_blowup <= 27,
        prover_inputs_ok(inputs@, config.log_blowup as nat),
        sorted_descending(inputs@),
        forall|i: usize| open_input.requires((i,)),
    ensures
        r matches Ok(proof) ==> {
            let lb = config.log_blowup as nat;
            let la = config.log_arity as nat;
            let log_max = log2(inputs@[0]@.len());
            let rounds = ((log_max - lb) / (la as int)) as nat;
            &&& proof.commit_phase_commits@.len() == rounds
            &&& proof.query_proofs@.len() == config.num_queries
            &&& proof.normalize_query_proofs@.len() == config.num_queries
            &&& forall|q: int|
                0 <= q < config.num_queries ==> (#[trigger] proof.query_proofs@[q]).commit_phase_openings@.len()
                    == rounds && forall|i: int|
                    0 <= i < rounds ==> (#[trigger] proof.query_proofs@[q].commit_phase_openings@[i]).sibling_values@.len()
                        == exp2(la) - 1
            &&& forall|q: int|
                0 <= q < config.num_queries ==> (#[trigger] proof.normalize_query_proofs@[q]).normalize_phase_openings@.len()
                    == proof.normalize_phase_commits@.len()
            &&& proof.normalize_phase_commits@.len() == normalized_heights(vvals(inputs@), lb, la).len()
            &&& forall|k: int|
                0 <= k < proof.normalize_phase_commits@.len() ==> {
                    let l = (#[trigger] proof.normalize_phase_commits@[k]).1 as nat;
                    &&& l == normalized_heights(vvals(inputs@), lb, la)[k]
                    &&& lb <= l <= log_max
                    &&& num_normalize_folds(l, lb, la) != 0
                }
            &&& forall|q: int, k: int|
                0 <= q < config.num_queries && 0 <= k < proof.normalize_phase_commits@.len() ==> (#[trigger] proof.normalize_query_proofs@[q].normalize_phase_openings@[k]).sibling_values@.len()
                    == exp2(num_normalize_folds(proof.normalize_phase_commits@[k].1 as nat, lb, la)) - 1
            &&& proof.final_poly.wf()
            &&& exists|nbetas: Seq<int>, cbetas: Seq<int>| {
                let fin = #[trigger] final_codeword(vvals(inputs@), nbetas, cbetas, lb, la);
                &&& nbetas.len() == inputs@.len()
                &&& cbetas.len() == rounds
                &&& all_canon(nbetas)
                &&& all_canon(cbetas)
                &&& fin.len() == exp2(lb)
                &&& is_constant(fin)
                &&& fin[0] == proof.final_poly.val()
            }
        },
        r matches Err(e) ==> e == FriError::NonCanonicalChallenge || e == FriError::UnexpectedOpening
            || (e == FriError::FinalPolynomialNotConstant && exists|nbetas: Seq<int>, cbetas: Seq<int>|
            nbetas.len() == inputs@.len() && cbetas.len() == ((log2(inputs@[0]@.len()) - config.log_blowup) / (config.log_arity as int)) as nat
                && all_canon(nbetas) && all_canon(cbetas)
                && !is_constant(#[trigger] final_codeword(vvals(inputs@), nbetas, cbetas, config.log_blowup as nat, config.log_arity as nat))),
        r matches Ok(proof) ==> exists|
            nbetas: Seq<int>,
            ndata: Seq<M::ProverData>,
            cbetas: Seq<int>,
            cdata: Seq<M::ProverData>,
            idx: Seq<usize>,
            nblocks: Seq<Seq<Call<M::Commitment, M::ProverData, M::Proof, C::Witness>>>,
            cblocks: Seq<Seq<Call<M::Commitment, M::ProverData, M::Proof, C::Witness>>>,
        |
            #[trigger] prove_transcript(
                final(challenger).record(),
                old(challenger).record(),
                vvals(inputs@),
                config.log_blowup as nat,
                config.log_arity as nat,
                config.proof_of_work_bits,
                proof,
                nbetas,
                ndata,
                cbetas,
                cdata,
                idx,
                nblocks,
                cblocks,
            ) && forall|q: int| 0 <= q < idx.len() ==> open_input.ensures((idx[q],), #[trigger] proof.query_proofs@[q].input_proof),
        r matches Err(FriError::FinalPolynomialNotConstant) ==> exists|
            nbetas: Seq<int>,
            ncommits: Seq<(M::Commitment, usize)>,
            ndata: Seq<M::ProverData>,
            cbetas: Seq<int>,
            ccommits: Seq<M::Commitment>,
            cdata: Seq<M::ProverData>,
        |
            #[trigger] not_constant_transcript::<M::Commitment, M::ProverData, M::Proof, C::Witness>(
                final(challenger).record(),
                old(challenger).record(),
                vvals(inputs@),
                config.log_blowup as nat,
                config.log_arity as nat,
                nbetas,
                ncommits,
                ndata,
                cbetas,
                ccommits,
                cdata,
            ),
        r matches Err(FriError::NonCanonicalChallenge) ==> ends_with_bad_challenge(
            final(challenger).record(),
            old(challenger).record(),
        ),
        r matches Err(FriError::UnexpectedOpening) ==> ends_with_bad_opening(
            final(challenger).record(),
            old(challenger).record(),
        ),
        all_low_degree(vvals(inputs@), config.log_blowup as nat) ==> !(r matches Err(FriError::FinalPolynomialNotConstant)),
        log2(inputs@[0]@.len()) == config.log_blowup ==> (r is Ok <==> is_constant(
            normalized_inputs_spec(
                vvals(inputs@),
                Seq::new(inputs@.len(), |j: int| 0int),
                config.log_blowup as nat,
                config.log_arity as nat,
            )[0],
        )),
{
    let ghost lb = config.log_blowup as nat;
    let ghost la = config.log_arity as nat;
    let log_max_height = p3_util::log2_strict_usize(inputs[0].len());
    let ghost at_blowup = log_max_height == lb;
    proof {
        assert(log_max_height <= 27);
        if at_blowup {
            lemma_no_folds_at_blowup(inputs@, lb, la);
        }
    }
    let normalize_phase_result = match normalize_phase(config, &inputs, challenger) {
        Ok(res) => res,
        Err(e) => {
            proof {
                let (j, bs, cs, ds, c, d, x) = choose|
                    j: int,
                    betas: Seq<int>,
                    commits: Seq<(M::Commitment, usize)>,
                    data: Seq<M::ProverData>,
                    c: M::Commitment,
                    d: M::ProverData,
                    x: Fp,
                |
                    0 <= j < inputs@.len() && num_normalize_folds(log2(inputs@[j]@.len()), lb, la) != 0 && !x.wf()
                        && #[trigger] challenger.calls@ == old(challenger).calls@ + normalize_log::<M::Commitment, M::ProverData, M::Proof, C::Witness>(
                        vvals(inputs@).take(j),
                        betas,
                        commits,
                        data,
                        lb,
                        la,
                    ) + seq![
                        Call::Commit(vals(inputs@[j]@), exp2(num_normalize_folds(log2(inputs@[j]@.len()), lb, la)), c, d),
                        Call::Observe(c),
                        Call::SampleExt(x),
                    ];
                assert(challenger.calls@.last() == Call::<M::Commitment, M::ProverData, M::Proof, C::Witness>::SampleExt(x));
            }
            return Err(e);
        },
    };
    proof {
        if at_blowup {
            assert(normalize_phase_result.betas@ =~= Seq::new(inputs@.len(), |j: int| 0int)) by {
                assert forall|j: int| 0 <= j < inputs@.len() implies normalize_phase_result.betas@[j] == 0 by {
                    assert(num_normalize_folds(log2(vvals(inputs@)[j].len()), lb, la) == 0);
                    assert(vvals(inputs@)[j].len() == inputs@[j]@.len());
                }
            }
        }
    }
    let ghost nbetas = normalize_phase_result.betas@;
    let ghost normalized = vvals(normalize_phase_result.normalized_inputs@);
    let NormalizePhaseResult { commits: normalize_commits, data: normalize_data, normalized_inputs, betas: _ } = normalize_phase_result;
    proof {
        // the longest normalized input comes from the longest input
        lemma_pow2_log2(inputs@[0]@.len());
        lemma_slot_monotone(log_max_height as nat, log_max_height as nat, lb, la);
        let q = (log_max_height - lb) as int / la as int;
        assert(normalize_slot(log_max_height as nat, lb, la) - lb == la * q);
        vstd::arithmetic::div_mod::lemma_div_multiples_vanish(q, la as int);
        assert(num_rounds(normalized_inputs@[0]@.len(), lb, la) == q);
    }
    let ghost calls_n = challenger.calls@;
    proof {
        assert(normalize_commits_recorded(calls_n, old(challenger).calls@.len() as int, normalize_commits@,
            normalize_data@, lb, la)) by {
            reveal(normalize_commits_recorded);
            assert forall|k: int| 0 <= k < normalize_data@.len() implies #[trigger] commit_recorded(
                calls_n,
                old(challenger).calls@.len() as int,
                normalize_data@[k],
                exp2(num_normalize_folds(normalize_commits@[k].1 as nat, lb, la)),
            ) by {
                lemma_normalize_log_records::<M::Commitment, M::ProverData, M::Proof, C::Witness>(
                    vvals(inputs@), nbetas, normalize_commits@, normalize_data@, lb, la, k);
                lemma_commit_recorded_shift(old(challenger).calls@, normalize_log::<M::Commitment, M::ProverData, M::Proof, C::Witness>(
                    vvals(inputs@), nbetas, normalize_commits@, normalize_data@, lb, la), normalize_data@[k],
                    exp2(num_normalize_folds(normalize_commits@[k].1 as nat, lb, la)));
            }
        }
        assert(normalized[0] == vals(normalized_inputs@[0]@));
        assert(normalized_inputs_spec(vvals(inputs@), nbetas, lb, la) == normalized);
    }
    let commit_phase_result = match commit_phase(config, normalized_inputs, challenger) {
        Ok(res) => res,
        Err(e) => {
            proof {
                if e == FriError::FinalPolynomialNotConstant {
                    let (cb, ccs, cds) = choose|betas: Seq<int>, commits: Seq<M::Commitment>, data: Seq<M::ProverData>|
                        all_canon(betas) && betas.len() == num_rounds(
                            normalized_inputs@[0]@.len(),
                            lb,
                            la,
                        ) && !is_constant(commit_state(normalized, betas, la).0)
                            && #[trigger] commit_log_complete::<M::Commitment, M::ProverData, M::Proof, C::Witness>(
                            challenger.calls@,
                            calls_n,
                            normalized,
                            betas,
                            commits,
                            data,
                            la,
                        );
                    assert(normalized_inputs_spec(vvals(inputs@), nbetas, lb, la) == normalized);
                    assert(challenger.calls@ =~= old(challenger).calls@ + normalize_log::<M::Commitment, M::ProverData, M::Proof, C::Witness>(
                        vvals(inputs@), nbetas, normalize_commits@, normalize_data@, lb, la)
                        + commit_log::<M::Commitment, M::ProverData, M::Proof, C::Witness>(
                        normalized_inputs_spec(vvals(inputs@), nbetas, lb, la), cb, ccs, cds, la));
                    assert(not_constant_transcript::<M::Commitment, M::ProverData, M::Proof, C::Witness>(
                        challenger.record(), old(challenger).record(), vvals(inputs@), lb, la,
                        nbetas, normalize_commits@, normalize_data@, cb, ccs, cds));
                    assert(!is_constant(final_codeword(vvals(inputs@), nbetas, cb, lb, la)));
                    if all_low_degree(vvals(inputs@), lb) {
                        lemma_sorted_vals(inputs@);
                        law_low_degree_inputs_fold_to_constant(vvals(inputs@), nbetas, cb, lb, la);
                    }
                } else {
                    let (bs, cs, ds, c, d, x) = choose|
                        betas: Seq<int>,
                        commits: Seq<M::Commitment>,
                        data: Seq<M::ProverData>,
                        c: M::Commitment,
                        d: M::ProverData,
                        x: Fp,
                    |
                        betas.len() < num_rounds(normalized_inputs@[0]@.len(), lb, la)
                            && #[trigger] commit_log_noncanonical::<M::Commitment, M::ProverData, M::Proof, C::Witness>(
                            challenger.calls@,
                            calls_n,
                            normalized,
                            betas,
                            commits,
                            data,
                            c,
                            d,
                            x,
                            la,
                        );
                    assert(challenger.calls@.last() == Call::<M::Commitment, M::ProverData, M::Proof, C::Witness>::SampleExt(x));
                    assert(calls_n.len() >= old(challenger).calls@.len());
                }
            }
            return Err(e);
        },
    };
    let ghost cbetas = commit_phase_result.betas@;
    let ghost calls_c = challenger.calls@;
    proof {
        let clog = commit_log::<M::Commitment, M::ProverData, M::Proof, C::Witness>(
            normalized, cbetas, commit_phase_result.commits@, commit_phase_result.data@, la);
        let obs = Call::ObserveExt(commit_phase_result.final_poly);
        assert(commit_layers_recorded(calls_c, old(challenger).calls@.len() as int, commit_phase_result.data@, la)) by {
            reveal(commit_layers_recorded);
            assert forall|i: int| 0 <= i < commit_phase_result.data@.len() implies #[trigger] commit_recorded(
                calls_c,
                old(challenger).calls@.len() as int,
                commit_phase_result.data@[i],
                exp2(la),
            ) by {
                lemma_commit_log_records::<M::Commitment, M::ProverData, M::Proof, C::Witness>(
                    normalized, cbetas, commit_phase_result.commits@, commit_phase_result.data@, la, i);
                assert(clog.push(obs).subrange(0, clog.len() as int) =~= clog);
                lemma_commit_recorded_prefix(clog, clog.push(obs), 0, 0, commit_phase_result.data@[i], exp2(la));
                lemma_commit_recorded_shift(calls_n, clog.push(obs), commit_phase_result.data@[i], exp2(la));
                assert(calls_c.subrange(0, calls_c.len() as int) =~= calls_c);
                lemma_commit_recorded_prefix(calls_c, calls_c, calls_n.len() as int, old(challenger).calls@.len() as int,
                    commit_phase_result.data@[i], exp2(la));
            }
        }
    }
    let pow_witness = challenger.grind(config.proof_of_work_bits);
    let ghost calls_g = challenger.calls@;
    let mut query_indices: Vec<usize> = Vec::new();
    for q in 0..config.num_queries
        invariant
            query_indices@.len() == q,
            challenger.calls@ == calls_g + sample_log::<M::Commitment, M::ProverData, M::Proof, C::Witness>(log_max_height, query_indices@),
    {
        let ghost before = query_indices@;
        let x = challenger.sample_bits(log_max_height);
        query_indices.push(x);
        proof {
            assert(sample_log::<M::Commitment, M::ProverData, M::Proof, C::Witness>(log_max_height, query_indices@)
                =~= sample_log::<M::Commitment, M::ProverData, M::Proof, C::Witness>(log_max_height, before).push(Call::SampleBits(log_max_height, x)));
        }
    }
    let ghost calls_s = challenger.calls@;
    proof {
        assert(calls_s.subrange(0, calls_n.len() as int) =~= calls_n);
        lemma_normalize_recorded_prefix(calls_n, calls_s, old(challenger).calls@.len() as int, normalize_commits@,
            normalize_data@, lb, la);
    }
    let ghost mut nblocks: Seq<Seq<Call<M::Commitment, M::ProverData, M::Proof, C::Witness>>> = Seq::empty();

    // the normalize query phase
    let mut normalize_query_proofs: Vec<NormalizeQueryProof<M::Proof>> = Vec::new();
    for q in 0..config.num_queries
        invariant
            query_indices@.len() == config.num_queries,
            normalize_query_proofs@.len() == q,
            normalize_commits@.len() == normalize_data@.len(),
            1 <= la == config.log_arity,
            lb == config.log_blowup,
            log_max_height == log2(inputs@[0]@.len()),
            log_max_height <= 27,
            forall|k: int| 0 <= k < normalize_commits@.len() ==> {
                let l = (#[trigger] normalize_commits@[k]).1 as nat;
                &&& lb <= l <= log_max_height
                &&& num_normalize_folds(l, lb, la) != 0
            },
            forall|p: int|
                0 <= p < q ==> (#[trigger] normalize_query_proofs@[p]).normalize_phase_openings@.len()
                    == normalize_commits@.len(),
            forall|p: int, k: int|
                0 <= p < q && 0 <= k < normalize_commits@.len() ==> (#[trigger] normalize_query_proofs@[p].normalize_phase_openings@[k]).sibling_values@.len()
                    == exp2(num_normalize_folds(normalize_commits@[k].1 as nat, lb, la)) - 1,
            challenger.calls@ == calls_s + concat(nblocks),
            old(challenger).calls@.len() <= calls_s.len(),
            normalize_commits_recorded(calls_s, old(challenger).calls@.len() as int, normalize_commits@, normalize_data@, lb, la),
            normalize_commits@.len() == normalized_heights(vvals(inputs@), lb, la).len(),
            forall|k: int| 0 <= k < normalize_commits@.len() ==> (#[trigger] normalize_commits@[k]).1 == normalized_heights(vvals(inputs@), lb, la)[k],
            at_blowup ==> normalize_data@.len() == 0,
            at_blowup <==> log2(inputs@[0]@.len()) == config.log_blowup,
            normalize_queries_answered(
                nblocks,
                query_indices@.take(q as int),
                log_max_height as nat,
                normalize_commits@,
                normalize_data@,
                lb,
                la,
                normalize_query_proofs@,
            ),
    {
        let index = query_indices[q];
        let mut openings: Vec<CommitPhaseProofStep<M::Proof>> = Vec::new();
        let ghost calls_q = challenger.calls@;
        let ghost mut blk: Seq<Call<M::Commitment, M::ProverData, M::Proof, C::Witness>> = Seq::empty();
        proof {
            assert(calls_q.subrange(0, calls_s.len() as int) =~= calls_s);
            lemma_normalize_recorded_prefix(calls_s, calls_q, old(challenger).calls@.len() as int, normalize_commits@,
                normalize_data@, lb, la);
        }
        let nd = normalize_data.len();
        for k in 0..nd
            invariant
                nd == normalize_data@.len(),
                challenger.calls@ == calls_q + blk,
                old(challenger).calls@.len() <= calls_q.len(),
                normalize_commits_recorded(calls_q, old(challenger).calls@.len() as int, normalize_commits@, normalize_data@, lb, la),
                normalize_commits@.len() == normalized_heights(vvals(inputs@), lb, la).len(),
                forall|k3: int| 0 <= k3 < normalize_commits@.len() ==> (#[trigger] normalize_commits@[k3]).1 == normalized_heights(vvals(inputs@), lb, la)[k3],
                blk.len() == k,
                at_blowup ==> normalize_data@.len() == 0,
                at_blowup <==> log2(inputs@[0]@.len()) == config.log_blowup,
                forall|k2: int|
                    0 <= k2 < k ==> {
                        let h = normalize_commits@[k2].1 as nat;
                        let ix = (index as nat) / exp2((log_max_height - h) as nat);
                        let nf = num_normalize_folds(h, lb, la);
                        &&& opens_row(#[trigger] blk[k2], normalize_data@[k2], ix, nf)
                        &&& answers(blk[k2], ix, nf, openings@[k2])
                    },
                normalize_commits@.len() == normalize_data@.len(),
                openings@.len() == k,
                1 <= la == config.log_arity,
                lb == config.log_blowup,
                log_max_height <= 27,
                forall|k2: int| 0 <= k2 < normalize_commits@.len() ==> {
                    let l = (#[trigger] normalize_commits@[k2]).1 as nat;
                    &&& lb <= l <= log_max_height
                    &&& num_normalize_folds(l, lb, la) != 0
                },
                forall|k2: int|
                    0 <= k2 < k ==> (#[trigger] openings@[k2]).sibling_values@.len() == exp2(
                        num_normalize_folds(normalize_commits@[k2].1 as nat, lb, la),
                    ) - 1,
        {
            let height = normalize_commits[k].1;
            proof {
                assert(lb <= height <= log_max_height);
                vstd::arithmetic::div_mod::lemma_mod_bound((height - lb) as int, la as int);
                vstd::arithmetic::div_mod::lemma_mod_decreases((height - lb) as nat, la as nat);
            }
            let shift = (height - config.log_blowup) % config.log_arity;
            proof {
                crate::bits::lemma_shr_is_div(index, (log_max_height - height) as usize);
            }
            let ix = index >> (log_max_height - height);
            let ghost calls_before = challenger.calls@;
            let ghost openings_before = openings@;
            let step = answer_query_single_step(config, challenger, &normalize_data[k], ix, shift);
            match step {
                Ok(s) => {
                    openings.push(s);
                    proof {
                        let call = challenger.calls@.last();
                        assert(challenger.calls@ =~= calls_before.push(call));
                        let nb = blk.push(call);
                        assert(challenger.calls@ =~= calls_q + nb);
                        assert(ix as nat == (index as nat) / exp2((log_max_height - height) as nat));
                        assert forall|k2: int| 0 <= k2 < k + 1 implies {
                            let h = normalize_commits@[k2].1 as nat;
                            let ix2 = (index as nat) / exp2((log_max_height - h) as nat);
                            let nf = num_normalize_folds(h, lb, la);
                            &&& opens_row(#[trigger] nb[k2], normalize_data@[k2], ix2, nf)
                            &&& answers(nb[k2], ix2, nf, openings@[k2])
                        } by {
                            if k2 < k {
                                assert(nb[k2] == blk[k2]);
                                assert(openings@[k2] == openings_before[k2]);
                            } else {
                                assert(nb[k2] == call);
                                assert(openings@[k2] == s);
                            }
                        }
                        blk = nb;
                    }
                },
                Err(e) => {
                    proof {
                        assert(!at_blowup);
                        assert(normalized_heights(vvals(inputs@), lb, la)[k as int] == height as nat);
                        let w = exp2(num_normalize_folds(normalize_commits@[k as int].1 as nat, lb, la));
                        assert(!well_opened(
                            challenger.calls@.last(),
                            num_normalize_folds(normalized_heights(vvals(inputs@), lb, la)[k as int], lb, la),
                        ));
                        assert(commit_recorded(calls_q, old(challenger).calls@.len() as int, normalize_data@[k as int], w)) by {
                            reveal(normalize_commits_recorded);
                        }
                        assert(challenger.calls@.subrange(0, calls_q.len() as int) =~= calls_q);
                        lemma_ends_with_bad_opening(challenger.calls@, old(challenger).calls@, calls_q,
                            normalize_data@[k as int], w);
                    }
                    return Err(e);
                },
            }
        }
        let ghost proofs_before = normalize_query_proofs@;
        normalize_query_proofs.push(NormalizeQueryProof { normalize_phase_openings: openings });
        proof {
            let nbl = nblocks.push(blk);
            assert(nbl.drop_last() =~= nblocks);
            assert(challenger.calls@ =~= calls_s + concat(nbl));
            let idx2 = query_indices@.take(q + 1);
            assert forall|p: int| 0 <= p < q + 1 implies idx2[p] == query_indices@[p] by {}
            assert forall|p: int| 0 <= p < q implies #[trigger] nbl[p] == nblocks[p] && normalize_query_proofs@[p] == proofs_before[p] by {}
            assert(normalize_queries_answered(
                nbl,
                idx2,
                log_max_height as nat,
                normalize_commits@,
                normalize_data@,
                lb,
                la,
                normalize_query_proofs@,
            )) by {
                assert forall|p: int, k: int|
                    #![trigger nbl[p][k]]
                    0 <= p < idx2.len() && 0 <= k < normalize_commits@.len() implies {
                        let h = normalize_commits@[k].1 as nat;
                        let ix = (idx2[p] as nat) / exp2((log_max_height - h) as nat);
                        let nf = num_normalize_folds(h, lb, la);
                        &&& opens_row(nbl[p][k], normalize_data@[k], ix, nf)
                        &&& answers(nbl[p][k], ix, nf, normalize_query_proofs@[p].normalize_phase_openings@[k])
                    } by {
                        if p < q {
                            assert(nbl[p] == nblocks[p]);
                            assert(query_indices@.take(q as int)[p] == query_indices@[p]);
                            assert(nblocks[p][k] == nblocks[p][k]);
                        } else {
                            assert(nbl[p] == blk);
                            assert(normalize_query_proofs@[p].normalize_phase_openings@ == openings@);
                        }
                    }
                }
            nblocks = nbl;
        }
    }
    let ghost calls_nq = challenger.calls@;
    proof {
        assert(calls_nq.subrange(0, calls_c.len() as int) =~= calls_c);
        assert(commit_layers_recorded(calls_nq, old(challenger).calls@.len() as int, commit_phase_result.data@, la)) by {
            reveal(commit_layers_recorded);
            assert forall|i: int| 0 <= i < commit_phase_result.data@.len() implies #[trigger] commit_recorded(
                calls_nq,
                old(challenger).calls@.len() as int,
                commit_phase_result.data@[i],
                exp2(la),
            ) by {
                lemma_commit_recorded_prefix(calls_c, calls_nq, old(challenger).calls@.len() as int,
                    old(challenger).calls@.len() as int, commit_phase_result.data@[i], exp2(la));
            }
        }
    }
    let ghost mut cblocks: Seq<Seq<Call<M::Commitment, M::ProverData, M::Proof, C::Witness>>> = Seq::empty();

    // the query phase
    let shift = (log_max_height - config.log_blowup) % config.log_arity;
    proof {
        vstd::arithmetic::div_mod::lemma_mod_bound((log_max_height - lb) as int, la as int);
        vstd::arithmetic::div_mod::lemma_mod_decreases((log_max_height - lb) as nat, la as nat);
        vstd::arithmetic::div_mod::lemma_fundamental_div_mod((log_max_height - lb) as int, la as int);
        assert(commit_phase_result.data@.len() * la <= log_max_height - lb) by {
            vstd::arithmetic::mul::lemma_mul_is_commutative(commit_phase_result.data@.len() as int, la as int);
            vstd::arithmetic::div_mod::lemma_mod_pos_bound((log_max_height - lb) as int, la as int);
        }
    }
    let mut query_proofs: Vec<QueryProof<M::Proof, InputProof>> = Vec::new();
    for q in 0..config.num_queries
        invariant
            query_indices@.len() == config.num_queries,
            query_proofs@.len() == q,
            1 <= config.log_arity,
            la == config.log_arity,
            commit_phase_result.data@.len() * config.log_arity < 32,
            shift <= 27,
            shift as nat == num_normalize_folds(log_max_height as nat, lb, la),
            commit_phase_result.commits@.len() == commit_phase_result.data@.len(),
            forall|i: usize| open_input.requires((i,)),
            forall|p: int|
                0 <= p < q ==> (#[trigger] query_proofs@[p]).commit_phase_openings@.len()
                    == commit_phase_result.data@.len() && forall|i: int|
                    0 <= i < commit_phase_result.data@.len() ==> (#[trigger] query_proofs@[p].commit_phase_openings@[i]).sibling_values@.len()
                        == exp2(config.log_arity as nat) - 1,
            forall|p: int|
                0 <= p < q ==> open_input.ensures((query_indices@[p],), #[trigger] query_proofs@[p].input_proof),
            challenger.calls@ == calls_nq + concat(cblocks),
            old(challenger).calls@.len() <= calls_nq.len(),
            commit_layers_recorded(calls_nq, old(challenger).calls@.len() as int, commit_phase_result.data@, la),
            at_blowup ==> commit_phase_result.data@.len() == 0,
            at_blowup <==> log2(inputs@[0]@.len()) == config.log_blowup,
            commit_queries_answered(
                cblocks,
                query_indices@.take(q as int),
                shift as nat,
                commit_phase_result.data@,
                la,
                query_proofs@,
            ),
    {
        let index = query_indices[q];
        let input_proof = open_input(index);
        proof {
            crate::bits::lemma_shr_is_div(index, shift);
        }
        let ix = index >> shift;
        let ghost calls_before = challenger.calls@;
        let commit_phase_openings = match answer_query(config, challenger, &commit_phase_result.data, ix) {
            Ok(steps) => steps,
            Err(e) => {
                proof {
                    assert(commit_phase_result.data@.len() > 0);
                    assert(!at_blowup);
                    let i = challenger.calls@.len() - calls_before.len() - 1;
                    assert(challenger.calls@[calls_before.len() + i] == challenger.calls@.last());
                    assert(commit_recorded(calls_nq, old(challenger).calls@.len() as int, commit_phase_result.data@[i], exp2(la))) by {
                        reveal(commit_layers_recorded);
                    }
                    assert(challenger.calls@.subrange(0, calls_nq.len() as int) =~= calls_nq) by {
                        assert(challenger.calls@.subrange(0, calls_before.len() as int) == calls_before);
                        assert forall|m: int| 0 <= m < calls_nq.len() implies challenger.calls@[m] == calls_nq[m] by {
                            assert(challenger.calls@[m] == challenger.calls@.subrange(0, calls_before.len() as int)[m]);
                        }
                    }
                    lemma_ends_with_bad_opening(challenger.calls@, old(challenger).calls@, calls_nq,
                        commit_phase_result.data@[i], exp2(la));
                }
                return Err(e);
            },
        };
        let ghost blk = challenger.calls@.subrange(calls_before.len() as int, challenger.calls@.len() as int);
        let ghost steps = commit_phase_openings@;
        let ghost proofs_before = query_proofs@;
        query_proofs.push(QueryProof { input_proof, commit_phase_openings });
        proof {
            assert(challenger.calls@ =~= calls_before + blk);
            let ncb = cblocks.push(blk);
            assert(ncb.drop_last() =~= cblocks);
            assert(challenger.calls@ =~= calls_nq + concat(ncb));
            let idx2 = query_indices@.take(q + 1);
            assert(ix as nat == (index as nat) / exp2(shift as nat));
            assert forall|p: int| 0 <= p < q implies #[trigger] ncb[p] == cblocks[p] && query_proofs@[p] == proofs_before[p] by {}
            assert forall|p: int| 0 <= p < q + 1 implies open_input.ensures((query_indices@[p],), #[trigger] query_proofs@[p].input_proof) by {
                if p < q {
                    assert(query_proofs@[p] == proofs_before[p]);
                }
            }
            assert(commit_queries_answered(
                ncb,
                idx2,
                shift as nat,
                commit_phase_result.data@,
                la,
                query_proofs@,
            )) by {
                assert forall|p: int, i: int|
                    #![trigger ncb[p][i]]
                    0 <= p < idx2.len() && 0 <= i < commit_phase_result.data@.len() implies {
                        let ix2 = ((idx2[p] as nat) / exp2(shift as nat)) / exp2((i * la) as nat);
                        &&& opens_row(ncb[p][i], commit_phase_result.data@[i], ix2, la)
                        &&& answers(ncb[p][i], ix2, la, query_proofs@[p].commit_phase_openings@[i])
                    } by {
                        if p < q {
                            assert(ncb[p] == cblocks[p]);
                            assert(query_indices@.take(q as int)[p] == query_indices@[p]);
                        } else {
                            assert(ncb[p] == blk);
                            assert(idx2[p] == index);
                            assert(query_proofs@[p].commit_phase_openings@ == steps);
                            assert(blk[i] == challenger.calls@[calls_before.len() + i]);
                            assert(answers(
                                challenger.calls@[calls_before.len() + i],
                                (ix as nat) / exp2((i * config.log_arity) as nat),
                                config.log_arity as nat,
                                steps[i],
                            ));
                        }
                    }
            }
            cblocks = ncb;
        }
    }

    let CommitPhaseResult { commits: commit_phase_commits, data: cdata, final_poly, betas: _ } = commit_phase_result;
    proof {
        let fin = final_codeword(vvals(inputs@), nbetas, cbetas, lb, la);
        assert(normalized_inputs_spec(vvals(inputs@), nbetas, lb, la) == normalized);
        assert(fin == commit_state(normalized, cbetas, la).0);
        assert(fin.len() == exp2(lb));
        assert(is_constant(fin));
        assert(fin[0] == final_poly.val());
        assert(cbetas.len() == ((log2(inputs@[0]@.len()) - lb) / (la as int)) as nat);
        assert(nbetas.len() == inputs@.len());
        assert(query_indices@.take(config.num_queries as int) =~= query_indices@);
    }
    let proof = FriProof {
        commit_phase_commits,
        normalize_phase_commits: normalize_commits,
        normalize_query_proofs,
        query_proofs,
        final_poly,
        pow_witness,
    };
    proof {
        assert(calls_g == calls_c.push(Call::Grind(config.proof_of_work_bits, pow_witness)));
        assert(challenger.calls@ =~= old(challenger).calls@ + normalize_log::<M::Commitment, M::ProverData, M::Proof, C::Witness>(
            vvals(inputs@), nbetas, proof.normalize_phase_commits@, normalize_data@, lb, la)
            + commit_log::<M::Commitment, M::ProverData, M::Proof, C::Witness>(
            normalized_inputs_spec(vvals(inputs@), nbetas, lb, la),
            cbetas,
            proof.commit_phase_commits@,
            cdata@,
            la,
        ) + seq![Call::ObserveExt(proof.final_poly), Call::Grind(config.proof_of_work_bits, proof.pow_witness)]
            + sample_log::<M::Commitment, M::ProverData, M::Proof, C::Witness>(log_max_height, query_indices@)
            + concat(nblocks) + concat(cblocks));
        assert(prove_transcript(
            challenger.record(),
            old(challenger).record(),
            vvals(inputs@),
            lb,
            la,
            config.proof_of_work_bits,
            proof,
            nbetas,
            normalize_data@,
            cbetas,
            cdata@,
            query_indices@,
            nblocks,
            cblocks,
        ));
    }
    Ok(proof)
}

} // verus!
