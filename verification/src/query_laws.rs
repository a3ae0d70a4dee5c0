//! What the record of a successful run of `prove` says about its queries: how many bits each
//! query index is drawn with, and which row of each committed codeword answers it.
use crate::bits::{exp2, log2};
use crate::fold_even_odd::vals;
use crate::fri_proof::{CommitPhaseProofStep, FriProof};
use crate::prover::{commit_log, commit_round_calls, concat, normalize_log, normalized_heights, prove_transcript, Call};
use vstd::prelude::*;

verus! {

/// From position `s` on, `calls` draws the values `idx`, one after the other, each with `bits`
/// bits.
pub open spec fn drawn_at<Cm, D, P, W>(calls: Seq<Call<Cm, D, P, W>>, s: int, bits: usize, idx: Seq<usize>) -> bool {
    &&& 0 <= s
    &&& s + idx.len() <= calls.len()
    &&& forall|q: int| 0 <= q < idx.len() ==> #[trigger] calls[s + q] == Call::<Cm, D, P, W>::SampleBits(bits, idx[q])
}

/// No call of `s` draws query bits.
spec fn draws_no_bits<Cm, D, P, W>(s: Seq<Call<Cm, D, P, W>>) -> bool {
    forall|m: int| 0 <= m < s.len() ==> !(#[trigger] s[m] is SampleBits)
}

/// Every call of `s` that draws query bits draws `bits` of them.
spec fn draws_only<Cm, D, P, W>(s: Seq<Call<Cm, D, P, W>>, bits: usize) -> bool {
    forall|m: int| 0 <= m < s.len() ==> ((#[trigger] s[m]) matches Call::SampleBits(b, r) ==> b == bits)
}

proof fn lemma_draws_no_bits_add<Cm, D, P, W>(a: Seq<Call<Cm, D, P, W>>, b: Seq<Call<Cm, D, P, W>>)
    requires
        draws_no_bits(a),
        draws_no_bits(b),
    ensures
        draws_no_bits(a + b),
{
    assert forall|m: int| 0 <= m < (a + b).len() implies !(#[trigger] (a + b)[m] is SampleBits) by {
        if m < a.len() {
            assert((a + b)[m] == a[m]);
        } else {
            assert((a + b)[m] == b[m - a.len()]);
        }
    }
}

proof fn lemma_draws_only_add<Cm, D, P, W>(a: Seq<Call<Cm, D, P, W>>, b: Seq<Call<Cm, D, P, W>>, bits: usize)
    requires
        draws_only(a, bits),
        draws_only(b, bits),
    ensures
        draws_only(a + b, bits),
{
    assert forall|m: int| 0 <= m < (a + b).len() implies ((#[trigger] (a + b)[m]) matches Call::SampleBits(
        x,
        r,
    ) ==> x == bits) by {
        if m < a.len() {
            assert((a + b)[m] == a[m]);
        } else {
            assert((a + b)[m] == b[m - a.len()]);
        }
    }
}

/// The normalize phase draws no query bits.
proof fn lemma_normalize_log_draws_no_bits<Cm, D, P, W>(
    inputs: Seq<Seq<int>>,
    betas: Seq<int>,
    commits: Seq<(Cm, usize)>,
    data: Seq<D>,
    lb: nat,
    la: nat,
)
    ensures
        draws_no_bits(normalize_log::<Cm, D, P, W>(inputs, betas, commits, data, lb, la)),
    decreases inputs.len(),
{
    if inputs.len() > 0 {
        let k = normalized_heights(inputs.drop_last(), lb, la).len() as int;
        lemma_normalize_log_draws_no_bits::<Cm, D, P, W>(
            inputs.drop_last(),
            betas.drop_last(),
            commits.take(k),
            data.take(k),
            lb,
            la,
        );
        let prev = normalize_log::<Cm, D, P, W>(inputs.drop_last(), betas.drop_last(), commits.take(k), data.take(k), lb, la);
        let all = normalize_log::<Cm, D, P, W>(inputs, betas, commits, data, lb, la);
        if all != prev {
            let t = all.subrange(prev.len() as int, all.len() as int);
            assert(all =~= prev + t);
            assert(draws_no_bits(t)) by {
                assert forall|m: int| 0 <= m < t.len() implies !(#[trigger] t[m] is SampleBits) by {
                    assert(t.len() == 3);
                }
            }
            lemma_draws_no_bits_add(prev, t);
        }
    }
}

/// The commit phase draws no query bits.
proof fn lemma_commit_log_draws_no_bits<Cm, D, P, W>(
    inputs: Seq<Seq<int>>,
    betas: Seq<int>,
    commits: Seq<Cm>,
    data: Seq<D>,
    la: nat,
)
    ensures
        draws_no_bits(commit_log::<Cm, D, P, W>(inputs, betas, commits, data, la)),
    decreases betas.len(),
{
    if betas.len() > 0 {
        let t = betas.len() - 1;
        lemma_commit_log_draws_no_bits::<Cm, D, P, W>(inputs, betas.drop_last(), commits.take(t), data.take(t), la);
        let prev = commit_log::<Cm, D, P, W>(inputs, betas.drop_last(), commits.take(t), data.take(t), la);
        let chunk = commit_round_calls::<Cm, D, P, W>(
            crate::prover::commit_state(inputs, betas.drop_last(), la).0,
            la,
            commits[t],
            data[t],
            betas[t],
        );
        assert(draws_no_bits(chunk)) by {
            assert forall|m: int| 0 <= m < chunk.len() implies !(#[trigger] chunk[m] is SampleBits) by {
                assert(chunk.len() == 3);
            }
        }
        lemma_draws_no_bits_add(prev, chunk);
    }
}

/// Blocks of openings only, laid end to end, draw no query bits.
proof fn lemma_concat_of_openings<Cm, D, P, W>(blocks: Seq<Seq<Call<Cm, D, P, W>>>)
    requires
        forall|p: int, k: int| 0 <= p < blocks.len() && 0 <= k < blocks[p].len() ==> (#[trigger] blocks[p][k]) is Open,
    ensures
        draws_no_bits(concat(blocks)),
    decreases blocks.len(),
{
    if blocks.len() > 0 {
        let bl = blocks.drop_last();
        assert forall|p: int, k: int| 0 <= p < bl.len() && 0 <= k < bl[p].len() implies (#[trigger] bl[p][k]) is Open by {
            assert(bl[p] == blocks[p]);
        }
        lemma_concat_of_openings(bl);
        let last = blocks.last();
        assert(draws_no_bits(last)) by {
            assert forall|m: int| 0 <= m < last.len() implies !(#[trigger] last[m] is SampleBits) by {
                assert(last[m] == blocks[blocks.len() - 1][m]);
            }
        }
        lemma_draws_no_bits_add(concat(bl), last);
    }
}

/// Entry `k` of block `p` stands in the blocks laid end to end.
proof fn lemma_concat_index<X>(blocks: Seq<Seq<X>>, p: int, k: int)
    requires
        0 <= p < blocks.len(),
        0 <= k < blocks[p].len(),
    ensures
        exists|m: int| 0 <= m < concat(blocks).len() && concat(blocks)[m] == blocks[p][k],
    decreases blocks.len(),
{
    let bl = blocks.drop_last();
    if p == blocks.len() - 1 {
        let m = concat(bl).len() + k;
        assert(concat(blocks)[m] == blocks[p][k]);
    } else {
        assert(bl[p] == blocks[p]);
        lemma_concat_index(bl, p, k);
        let m = choose|m: int| 0 <= m < concat(bl).len() && concat(bl)[m] == bl[p][k];
        assert(concat(blocks)[m] == concat(bl)[m]);
    }
}

/// **Each query index is drawn with as many bits as the longest input has levels.** In the
/// record of a run of `prove` that returned `proof`, every call after `base` that draws query
/// bits draws `log2` of the length of the longest input, however the normalize phase folds that
/// input; and the query indices `idx` of the proof are drawn one after the other, in order.
pub proof fn law_prove_draws_indices_over_the_whole_domain<Cm, D, P, W, I>(
    calls: Seq<Call<Cm, D, P, W>>,
    base: Seq<Call<Cm, D, P, W>>,
    inputs: Seq<Seq<int>>,
    lb: nat,
    la: nat,
    pow_bits: usize,
    proof: FriProof<Cm, P, W, I>,
    nbetas: Seq<int>,
    ndata: Seq<D>,
    cbetas: Seq<int>,
    cdata: Seq<D>,
    idx: Seq<usize>,
    nblocks: Seq<Seq<Call<Cm, D, P, W>>>,
    cblocks: Seq<Seq<Call<Cm, D, P, W>>>,
)
    requires
        prove_transcript(calls, base, inputs, lb, la, pow_bits, proof, nbetas, ndata, cbetas, cdata, idx, nblocks, cblocks),
    ensures
        forall|m: int|
            base.len() <= m < calls.len() ==> ((#[trigger] calls[m]) matches Call::SampleBits(b, r) ==> b == log2(
                inputs[0].len(),
            ) as usize),
        idx.len() == proof.query_proofs@.len(),
        exists|s: int| base.len() <= s && #[trigger] drawn_at(calls, s, log2(inputs[0].len()) as usize, idx),
{
    let l0 = log2(inputs[0].len()) as usize;
    let nl = normalize_log::<Cm, D, P, W>(inputs, nbetas, proof.normalize_phase_commits@, ndata, lb, la);
    let cl = commit_log::<Cm, D, P, W>(
        crate::prover::normalized_inputs_spec(inputs, nbetas, lb, la),
        cbetas,
        proof.commit_phase_commits@,
        cdata,
        la,
    );
    let t2 = seq![Call::<Cm, D, P, W>::ObserveExt(proof.final_poly), Call::Grind(pow_bits, proof.pow_witness)];
    let sl = crate::prover::sample_log::<Cm, D, P, W>(l0, idx);
    let c1 = concat(nblocks);
    let c2 = concat(cblocks);
    lemma_normalize_log_draws_no_bits::<Cm, D, P, W>(inputs, nbetas, proof.normalize_phase_commits@, ndata, lb, la);
    lemma_commit_log_draws_no_bits::<Cm, D, P, W>(
        crate::prover::normalized_inputs_spec(inputs, nbetas, lb, la),
        cbetas,
        proof.commit_phase_commits@,
        cdata,
        la,
    );
    assert(draws_no_bits(t2)) by {
        assert forall|m: int| 0 <= m < t2.len() implies !(#[trigger] t2[m] is SampleBits) by {}
    }
    assert forall|p: int, k: int| 0 <= p < nblocks.len() && 0 <= k < nblocks[p].len() implies (#[trigger] nblocks[p][k]) is Open by {
        assert(nblocks[p].len() == proof.normalize_phase_commits@.len());
        assert(nblocks[p][k] == nblocks[p][k]);
    }
    assert forall|p: int, k: int| 0 <= p < cblocks.len() && 0 <= k < cblocks[p].len() implies (#[trigger] cblocks[p][k]) is Open by {
        assert(cblocks[p].len() == cdata.len());
        assert(cblocks[p][k] == cblocks[p][k]);
    }
    lemma_concat_of_openings(nblocks);
    lemma_concat_of_openings(cblocks);
    lemma_draws_no_bits_add(nl, cl);
    lemma_draws_no_bits_add(nl + cl, t2);
    lemma_draws_no_bits_add(c1, c2);
    let before = nl + cl + t2;
    let after = c1 + c2;
    assert(draws_only(before, l0)) by {
        assert forall|m: int| 0 <= m < before.len() implies ((#[trigger] before[m]) matches Call::SampleBits(x, r) ==> x == l0) by {
            assert(!(before[m] is SampleBits));
        }
    }
    assert(draws_only(after, l0)) by {
        assert forall|m: int| 0 <= m < after.len() implies ((#[trigger] after[m]) matches Call::SampleBits(x, r) ==> x == l0) by {
            assert(!(after[m] is SampleBits));
        }
    }
    assert(draws_only(sl, l0)) by {
        assert forall|m: int| 0 <= m < sl.len() implies ((#[trigger] sl[m]) matches Call::SampleBits(x, r) ==> x == l0) by {
            assert(sl[m] == Call::<Cm, D, P, W>::SampleBits(l0, idx[m]));
        }
    }
    lemma_draws_only_add(before, sl, l0);
    lemma_draws_only_add(before + sl, after, l0);
    let rest = before + sl + after;
    assert(calls =~= base + rest);
    assert forall|m: int| base.len() <= m < calls.len() implies ((#[trigger] calls[m]) matches Call::SampleBits(
        b,
        r,
    ) ==> b == l0) by {
        assert(calls[m] == rest[m - base.len()]);
    }
    let s = (base.len() + before.len()) as int;
    assert forall|q: int| 0 <= q < idx.len() implies #[trigger] calls[s + q] == Call::<Cm, D, P, W>::SampleBits(
        l0,
        idx[q],
    ) by {
        assert(calls[s + q] == rest[before.len() + q]);
        assert(rest[before.len() + q] == (before + sl)[before.len() + q]);
        assert((before + sl)[before.len() + q] == sl[q]);
    }
    assert(drawn_at(calls, s, l0, idx));
}

/// From position `lo` on, `calls` holds an opening of row `row` of the matrices committed with
/// `data`, which gave one row of `width` entries; `step` keeps its opening proof and the row
/// without its entry at `pos`.
pub open spec fn opened_for<Cm, D, P, W>(
    calls: Seq<Call<Cm, D, P, W>>,
    lo: int,
    data: D,
    row: nat,
    width: nat,
    pos: nat,
    step: CommitPhaseProofStep<P>,
) -> bool {
    exists|m: int| {
        &&& lo <= m < calls.len()
        &&& (#[trigger] calls[m]) matches Call::Open(r, d, rows, pf) && d == data && r == row && rows.len() == 1
            && rows[0].len() == width && step.opening_proof == pf && vals(step.sibling_values@) == rows[0].remove(
            pos as int,
        )
    }
}

/// **Each query is answered at its own location in every committed codeword.** In the record
/// of a run of `prove` that returned `proof`, with query indices `idx` (drawn over `l0` bits,
/// `l0` the log-length of the longest input):
/// - for a normalize-phase commitment of log-height `h`, folded `nf = (h - log_blowup) mod
///   log_arity` times, query `idx[q]` lands at `j = idx[q] >> (l0 - h)` of that codeword: the
///   row `j >> nf` of its prover data was opened, it was one row of `2^nf` entries, and the
///   opening kept in the proof has that row's opening proof and the row without entry
///   `j mod 2^nf`;
/// - for commit-phase layer `i`, with `shift = (l0 - log_blowup) mod log_arity` (set by the
///   longest input alone), query `idx[q]` lands at `j = (idx[q] >> shift) >> (i log_arity)`: the
///   row `j >> log_arity` of that layer's prover data was opened, one row of `2^log_arity`
///   entries, and the proof keeps its opening proof and the row without entry
///   `j mod 2^log_arity`.
pub proof fn law_prove_opens_the_queried_rows<Cm, D, P, W, I>(
    calls: Seq<Call<Cm, D, P, W>>,
    base: Seq<Call<Cm, D, P, W>>,
    inputs: Seq<Seq<int>>,
    lb: nat,
    la: nat,
    pow_bits: usize,
    proof: FriProof<Cm, P, W, I>,
    nbetas: Seq<int>,
    ndata: Seq<D>,
    cbetas: Seq<int>,
    cdata: Seq<D>,
    idx: Seq<usize>,
    nblocks: Seq<Seq<Call<Cm, D, P, W>>>,
    cblocks: Seq<Seq<Call<Cm, D, P, W>>>,
)
    requires
        prove_transcript(calls, base, inputs, lb, la, pow_bits, proof, nbetas, ndata, cbetas, cdata, idx, nblocks, cblocks),
    ensures
        forall|q: int, k: int|
            #![trigger proof.normalize_query_proofs@[q].normalize_phase_openings@[k]]
            0 <= q < idx.len() && 0 <= k < ndata.len() ==> {
                let h = proof.normalize_phase_commits@[k].1 as nat;
                let nf = ((h - lb) % (la as int)) as nat;
                let j = (idx[q] as nat) / exp2((log2(inputs[0].len()) - h) as nat);
                opened_for(
                    calls,
                    base.len() as int,
                    ndata[k],
                    j / exp2(nf),
                    exp2(nf),
                    j % exp2(nf),
                    proof.normalize_query_proofs@[q].normalize_phase_openings@[k],
                )
            },
        forall|q: int, i: int|
            #![trigger proof.query_proofs@[q].commit_phase_openings@[i]]
            0 <= q < idx.len() && 0 <= i < cdata.len() ==> {
                let shift = ((log2(inputs[0].len()) - lb) % (la as int)) as nat;
                let j = ((idx[q] as nat) / exp2(shift)) / exp2((i * la) as nat);
                opened_for(
                    calls,
                    base.len() as int,
                    cdata[i],
                    j / exp2(la),
                    exp2(la),
                    j % exp2(la),
                    proof.query_proofs@[q].commit_phase_openings@[i],
                )
            },
{
    let l0 = log2(inputs[0].len());
    let nl = normalize_log::<Cm, D, P, W>(inputs, nbetas, proof.normalize_phase_commits@, ndata, lb, la);
    let cl = commit_log::<Cm, D, P, W>(
        crate::prover::normalized_inputs_spec(inputs, nbetas, lb, la),
        cbetas,
        proof.commit_phase_commits@,
        cdata,
        la,
    );
    let t2 = seq![Call::<Cm, D, P, W>::ObserveExt(proof.final_poly), Call::Grind(pow_bits, proof.pow_witness)];
    let sl = crate::prover::sample_log::<Cm, D, P, W>(l0 as usize, idx);
    let c1 = concat(nblocks);
    let c2 = concat(cblocks);
    let pre = base + nl + cl + t2 + sl;
    assert(calls == pre + c1 + c2);
    assert forall|q: int, k: int|
        #![trigger proof.normalize_query_proofs@[q].normalize_phase_openings@[k]]
        0 <= q < idx.len() && 0 <= k < ndata.len() implies {
        let h = proof.normalize_phase_commits@[k].1 as nat;
        let nf = ((h - lb) % (la as int)) as nat;
        let j = (idx[q] as nat) / exp2((log2(inputs[0].len()) - h) as nat);
        opened_for(
            calls,
            base.len() as int,
            ndata[k],
            j / exp2(nf),
            exp2(nf),
            j % exp2(nf),
            proof.normalize_query_proofs@[q].normalize_phase_openings@[k],
        )
    } by {
        assert(nblocks[q].len() == proof.normalize_phase_commits@.len());
        let call = nblocks[q][k];
        lemma_concat_index(nblocks, q, k);
        let m1 = choose|m: int| 0 <= m < c1.len() && c1[m] == nblocks[q][k];
        let m = pre.len() + m1;
        assert(calls[m] == c1[m1]);
        assert(calls[m] == call);
    }
    assert forall|q: int, i: int|
        #![trigger proof.query_proofs@[q].commit_phase_openings@[i]]
        0 <= q < idx.len() && 0 <= i < cdata.len() implies {
        let shift = ((log2(inputs[0].len()) - lb) % (la as int)) as nat;
        let j = ((idx[q] as nat) / exp2(shift)) / exp2((i * la) as nat);
        opened_for(
            calls,
            base.len() as int,
            cdata[i],
            j / exp2(la),
            exp2(la),
            j % exp2(la),
            proof.query_proofs@[q].commit_phase_openings@[i],
        )
    } by {
        assert(cblocks[q].len() == cdata.len());
        let call = cblocks[q][i];
        lemma_concat_index(cblocks, q, i);
        let m1 = choose|m: int| 0 <= m < c2.len() && c2[m] == cblocks[q][i];
        let m = pre.len() + c1.len() + m1;
        assert(calls[m] == c2[m1]);
        assert(calls[m] == call);
    }
}

} // verus!
