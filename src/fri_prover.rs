use crate::commit_phase::{
    bit_reversed, copy_matrix, inputs_ok, lemma_final_poly_bound, lemma_sum_pairs, next_active, pairs_of,
    query_index_bits, same_codeword, sum_pairs, Codeword, CommitPhase, FriConfig,
};
use crate::dft::{idft_vec, TwoAdicSubgroupDft};
use crate::field::{Felt, TWO_ADICITY};
use crate::fri::{answer_query, query_in_range, query_index, split_bits};
use crate::matrix::RowMajorMatrix;
use vstd::arithmetic::div_mod::*;
use vstd::arithmetic::mul::*;
use vstd::arithmetic::power2::*;
use vstd::prelude::*;

verus! {

/// A commitment scheme for batches of matrices.
pub trait Mmcs {
    type Commitment;
    type ProverData;
    type Proof;

    /// The matrices that `data` commits to.
    spec fn committed(&self, data: Self::ProverData) -> Seq<RowMajorMatrix<Felt>>;

    /// `proof` is the authentication path for row `index` of what `data` commits to.
    spec fn path_ok(&self, index: usize, data: Self::ProverData, proof: Self::Proof) -> bool;

    /// Commits to `mats`, returning the commitment and what the prover keeps to open it.
    fn commit(&self, mats: Vec<RowMajorMatrix<Felt>>) -> (r: (Self::Commitment, Self::ProverData))
        ensures
            self.committed(r.1) == mats@,
    ;

    /// The authentication path for row `index` of the committed matrices.
    fn open_path(&self, index: usize, data: &Self::ProverData) -> (r: Self::Proof)
        ensures
            self.path_ok(index, *data, r),
    ;
}

/// One interaction with a Fiat-Shamir transcript.
pub enum Event<C> {
    /// A field element was absorbed.
    Element(Felt),
    /// A commitment was absorbed.
    Commitment(C),
    /// A field element was drawn.
    Sample(Felt),
    /// A number of the given bits was drawn.
    SampleBits(usize, usize),
    /// A proof-of-work witness for the given bits was ground and absorbed.
    Grind(usize),
}

/// A Fiat-Shamir transcript: it absorbs what the prover sends and derives challenges from it.
/// `transcript` is the sequence of interactions so far.
pub trait Challenger<C> {
    type Witness;

    spec fn transcript(&self) -> Seq<Event<C>>;

    fn observe_commitment(&mut self, c: &C)
        ensures
            final(self).transcript() == old(self).transcript().push(Event::Commitment(*c)),
    ;

    fn observe_element(&mut self, x: Felt)
        ensures
            final(self).transcript() == old(self).transcript().push(Event::Element(x)),
    ;

    fn sample_element(&mut self) -> (r: Felt)
        ensures
            final(self).transcript() == old(self).transcript().push(Event::Sample(r)),
    ;

    fn sample_bits(&mut self, bits: usize) -> (r: usize)
        ensures
            final(self).transcript() == old(self).transcript().push(Event::SampleBits(bits, r)),
    ;

    /// Finds a proof-of-work witness for `bits` leading zero bits and absorbs it.
    fn grind(&mut self, bits: usize) -> (w: Self::Witness)
        ensures
            final(self).transcript() == old(self).transcript().push(Event::Grind(bits)),
    ;
}

/// One layer of a query answer: for each matrix committed at that layer, the siblings of
/// the queried entry; and the authentication path of their row.
pub struct CommitPhaseProofStep<P> {
    pub openings: Vec<Vec<Felt>>,
    pub proof: P,
}

/// The answer to one query at `index`: the opening of the inputs there, and one step per
/// committed layer.
pub struct QueryProof<P, I> {
    pub index: usize,
    pub input_proof: I,
    pub commit_phase_openings: Vec<CommitPhaseProofStep<P>>,
}

/// A FRI proof.
pub struct FriProof<C, P, W, I> {
    pub commit_phase_commits: Vec<C>,
    pub query_proofs: Vec<QueryProof<P, I>>,
    pub final_poly: Vec<Felt>,
    pub pow_witness: W,
}

/// A configuration the prover can run on `inputs`: folding lowers the length by at least
/// one bit a round, and every round that is owed folds from a length at least
/// `log_folding_arity` bits above the blowup, so no word drops below it.
pub open spec fn prove_ok(config: FriConfig, inputs: Seq<Codeword>) -> bool {
    &&& inputs_ok(inputs)
    &&& 1 <= config.log_folding_arity
    &&& rounds_fit(config, inputs)
}

/// Every round owed after `r` rounds (the first always is) starts at log length at least
/// `log_blowup + log_folding_arity`.
pub open spec fn rounds_fit(config: FriConfig, inputs: Seq<Codeword>) -> bool {
    let a = config.log_folding_arity as nat;
    forall|r: nat|
        r <= first_log(inputs) && (r == 0 || !stops_at(config, inputs, r)) ==> #[trigger] log_at(
            first_log(inputs),
            a,
            r,
        ) >= config.log_blowup + a
}

/// With a single input, the round after `r` is owed exactly while the length exceeds
/// `2^(log_blowup + log_max_final_poly_len)`.
pub proof fn lemma_single_input_rounds(config: FriConfig, inputs: Seq<Codeword>, r: nat)
    requires
        inputs.len() == 1,
        1 <= config.log_folding_arity,
        1 <= first_log(inputs),
        1 <= r,
    ensures
        next_at(inputs, config.log_folding_arity as nat, r) == 1,
        stops_at(config, inputs, r) == (log_at(first_log(inputs), config.log_folding_arity as nat, r)
            <= config.log_blowup + config.log_max_final_poly_len),
    decreases r,
{
    let a = config.log_folding_arity as nat;
    let l1 = log_at(first_log(inputs), a, r);
    if r > 1 {
        lemma_single_input_rounds(config, inputs, (r - 1) as nat);
        assert(next_active(inputs, 1, l1) == 1);
    } else {
        assert(next_at(inputs, a, 0) == 0);
        assert(log_at(first_log(inputs), a, 0) == first_log(inputs));
        assert(l1 < first_log(inputs));
        assert(next_active(inputs, 1, l1) == 1);
        assert(next_active(inputs, 0, l1) == 1);
    }
}

/// Each layer is `arity` bits shorter than the one before, the first than `l0`.
pub open spec fn chain_ok(logs: Seq<nat>, arity: nat, l0: nat) -> bool {
    forall|l: int|
        0 <= l < logs.len() ==> #[trigger] logs[l] + arity == if l == 0 {
            l0
        } else {
            logs[l - 1]
        }
}

/// Every matrix of a layer is well formed, has a width dividing `2^arity`, and has
/// `2^log_h` rows.
pub open spec fn layer_ok(mats: Seq<RowMajorMatrix<Felt>>, arity: nat, log_h: nat) -> bool {
    forall|k: int|
        0 <= k < mats.len() ==> (#[trigger] mats[k]).wf() && pow2(arity) % (mats[k].width as nat) == 0
            && mats[k].height_spec() == pow2(log_h)
}

pub proof fn lemma_div_pow2_bound(x: nat, m: nat, a: nat)
    requires
        x < pow2(m + a),
    ensures
        x / pow2(a) < pow2(m),
{
    lemma_pow2_adds(m, a);
    lemma_pow2_pos(a);
    lemma_mul_is_commutative(pow2(m) as int, pow2(a) as int);
    lemma_multiply_divide_lt(x as int, pow2(a) as int, pow2(m) as int);
}

/// A query index below `2^l0` reaches layer `l` below `2^(logs[l] + arity)`.
pub proof fn lemma_query_reach(index: nat, arity: nat, l0: nat, logs: Seq<nat>, l: nat)
    requires
        index < pow2(l0),
        chain_ok(logs, arity, l0),
        l < logs.len(),
    ensures
        query_index(index, arity, l) < pow2(logs[l as int] + arity),
        query_index(index, arity, l) / pow2(arity) < pow2(logs[l as int]),
    decreases l,
{
    if l > 0 {
        lemma_query_reach(index, arity, l0, logs, (l - 1) as nat);
        assert(logs[l - 1] == logs[l as int] + arity + arity - arity);
        lemma_div_pow2_bound(query_index(index, arity, (l - 1) as nat), logs[l as int] + arity, arity);
    }
    lemma_div_pow2_bound(query_index(index, arity, l), logs[l as int], arity);
}

/// The last layer and the layers before it account for all of `l0`.
pub proof fn lemma_chain_total(logs: Seq<nat>, arity: nat, l0: nat)
    requires
        chain_ok(logs, arity, l0),
        logs.len() > 0,
    ensures
        logs.last() + arity * logs.len() == l0,
    decreases logs.len(),
{
    if logs.len() > 1 {
        let prefix = logs.drop_last();
        assert(chain_ok(prefix, arity, l0)) by {
            assert forall|l: int| 0 <= l < prefix.len() implies #[trigger] prefix[l] + arity == if l == 0 {
                l0
            } else {
                prefix[l - 1]
            } by {
                assert(prefix[l] == logs[l]);
            }
        }
        lemma_chain_total(prefix, arity, l0);
        lemma_mul_is_distributive_add(arity as int, (logs.len() - 1) as int, 1);
        assert(logs[logs.len() - 1] + arity == logs[logs.len() - 2]);
        assert(prefix.last() == logs[logs.len() - 2]);
    } else {
        assert(logs[0] + arity == l0);
        assert(arity * 1 == arity);
    }
}

/// A word of length `2^n` laid out in rows of `2^(n - l)` has `2^l` rows, and that row
/// length divides `2^arity` when `n - l <= arity`.
pub proof fn lemma_layer_matrix(n: nat, l: nat, arity: nat)
    requires
        l <= n,
        n - l <= arity,
    ensures
        pow2(n) / pow2((n - l) as nat) == pow2(l),
        pow2(arity) % pow2((n - l) as nat) == 0,
{
    lemma_pow2_adds(l, (n - l) as nat);
    lemma_pow2_pos((n - l) as nat);
    lemma_mul_is_commutative(pow2(l) as int, pow2((n - l) as nat) as int);
    lemma_div_multiples_vanish(pow2(l) as int, pow2((n - l) as nat) as int);
    lemma_pow2_adds((arity - (n - l)) as nat, (n - l) as nat);
    lemma_mod_multiples_basic(pow2((arity - (n - l)) as nat) as int, pow2((n - l) as nat) as int);
}

/// The log length after `r` rounds, starting from `l0` and folding by `a` bits a round.
pub open spec fn log_at(l0: nat, a: nat, r: nat) -> nat
    decreases r,
{
    if r == 0 {
        l0
    } else if log_at(l0, a, (r - 1) as nat) >= a {
        (log_at(l0, a, (r - 1) as nat) - a) as nat
    } else {
        0
    }
}

/// The log length of the longest input.
pub open spec fn first_log(inputs: Seq<Codeword>) -> nat {
    inputs[0].log_word_len as nat
}

/// How many inputs have been brought in after `r` rounds.
pub open spec fn next_at(inputs: Seq<Codeword>, a: nat, r: nat) -> nat
    decreases r,
{
    if r == 0 {
        0
    } else {
        next_active(inputs, next_at(inputs, a, (r - 1) as nat), log_at(first_log(inputs), a, r))
    }
}

/// Inputs `from..to`, as words with their log lengths.
pub open spec fn input_pairs(inputs: Seq<Codeword>, from: nat, to: nat) -> Seq<(nat, Seq<Felt>)> {
    Seq::new(
        (to - from) as nat,
        |k: int| (inputs[from + k].log_word_len as nat, inputs[from + k].word@),
    )
}

/// The running word after `r` rounds with challenges `betas`: round `r` folds the running
/// word and the inputs it brings in down to its log length with `betas[r - 1]` and sums them.
pub open spec fn word_at(inputs: Seq<Codeword>, a: nat, betas: Seq<int>, r: nat) -> Seq<Felt>
    decreases r,
{
    if r == 0 {
        Seq::empty()
    } else {
        let running = if r == 1 {
            Seq::empty()
        } else {
            seq![(log_at(first_log(inputs), a, (r - 1) as nat), word_at(inputs, a, betas, (r - 1) as nat))]
        };
        sum_pairs(
            running + input_pairs(inputs, next_at(inputs, a, (r - 1) as nat), next_at(inputs, a, r)),
            log_at(first_log(inputs), a, r),
            betas[r - 1],
        )
    }
}

/// The words in play in round `r >= 1`, in the order they are committed: the running word
/// (from round 2 on), then the inputs the round brings in.
pub open spec fn round_active(inputs: Seq<Codeword>, a: nat, betas: Seq<int>, r: nat) -> Seq<(nat, Seq<Felt>)> {
    let running = if r <= 1 {
        Seq::empty()
    } else {
        seq![(log_at(first_log(inputs), a, (r - 1) as nat), word_at(inputs, a, betas, (r - 1) as nat))]
    };
    running + input_pairs(inputs, next_at(inputs, a, (r - 1) as nat), next_at(inputs, a, r))
}

/// No round is owed after `r` rounds: every input is in and the length is at most
/// `2^(log_blowup + log_max_final_poly_len)`.
pub open spec fn stops_at(config: FriConfig, inputs: Seq<Codeword>, r: nat) -> bool {
    let a = config.log_folding_arity as nat;
    !(next_at(inputs, a, r) < inputs.len() || log_at(first_log(inputs), a, r) > config.log_blowup
        + config.log_max_final_poly_len)
}

/// The least round count from `r` on at which no round is owed.
pub open spec fn rounds_from(config: FriConfig, inputs: Seq<Codeword>, r: nat) -> nat
    decreases first_log(inputs) + 1 - r,
{
    if r > first_log(inputs) || stops_at(config, inputs, r) {
        r
    } else {
        rounds_from(config, inputs, r + 1)
    }
}

/// The number of commit rounds: the least `r >= 1` after which no round is owed. It depends
/// on the configuration and the input lengths alone.
pub open spec fn num_rounds(config: FriConfig, inputs: Seq<Codeword>) -> nat {
    rounds_from(config, inputs, 1)
}

/// What a query at `index` opens from a layer word `w` laid out in rows of `width`.
pub open spec fn sibling_of(w: Seq<Felt>, width: nat, index: nat, arity: nat) -> Seq<Felt> {
    let row = (index / pow2(arity)) as int;
    w.subrange(row * width, (row + 1) * width).remove(((index % pow2(arity)) / (pow2(arity) / width)) as int)
}

/// `r` is what the prover sends when the transcript hands it the challenges `betas`: one
/// per commitment; the final polynomial decodes the last running word; and each query's
/// layer-`l` openings are the siblings, in every word of round `l + 1`, of the index the
/// query reaches at that layer.
pub open spec fn fri_transcript_ok<C, P, W, I>(
    r: FriProof<C, P, W, I>,
    config: FriConfig,
    inputs: Seq<Codeword>,
    betas: Seq<int>,
) -> bool {
    let a = config.log_folding_arity as nat;
    let n = r.commit_phase_commits@.len();
    let lf = log_at(first_log(inputs), a, n);
    &&& betas.len() == n
    &&& forall|i: int|
        0 <= i < r.final_poly@.len() ==> (#[trigger] r.final_poly@[i]).val == idft_vec(
            bit_reversed(word_at(inputs, a, betas, n), lf),
        )[i]
    &&& forall|q: int, l: int|
        0 <= q < r.query_proofs@.len() && 0 <= l < n ==> (#[trigger] r.query_proofs@[q].commit_phase_openings@[l]).openings@.len()
            == round_active(inputs, a, betas, (l + 1) as nat).len()
    &&& forall|q: int, l: int, k: int|
        0 <= q < r.query_proofs@.len() && 0 <= l < n && 0 <= k < round_active(inputs, a, betas, (l + 1) as nat).len()
            ==> (#[trigger] r.query_proofs@[q].commit_phase_openings@[l].openings@[k])@ == sibling_of(
            round_active(inputs, a, betas, (l + 1) as nat)[k].1,
            pow2((round_active(inputs, a, betas, (l + 1) as nat)[k].0 - log_at(first_log(inputs), a, (l + 1) as nat)) as nat),
            query_index(r.query_proofs@[q].index as nat, a, l as nat),
            a,
        )
}

/// The running word after `r` rounds depends only on the first `r` challenges.
pub proof fn lemma_word_prefix(inputs: Seq<Codeword>, a: nat, betas: Seq<int>, x: int, r: nat)
    requires
        r <= betas.len(),
    ensures
        word_at(inputs, a, betas.push(x), r) == word_at(inputs, a, betas, r),
        round_active(inputs, a, betas.push(x), r + 1) == round_active(inputs, a, betas, r + 1),
    decreases r,
{
    if r > 0 {
        lemma_word_prefix(inputs, a, betas, x, (r - 1) as nat);
        assert(betas.push(x)[r - 1] == betas[r - 1]);
    }
}

/// When rounds `s..c` are owed and round count `c` is not, the round count from `s` is `c`.
pub proof fn lemma_rounds(config: FriConfig, inputs: Seq<Codeword>, s: nat, c: nat)
    requires
        s <= c <= first_log(inputs),
        stops_at(config, inputs, c),
        forall|r: nat| s <= r < c ==> !#[trigger] stops_at(config, inputs, r),
    ensures
        rounds_from(config, inputs, s) == c,
    decreases c - s,
{
    if s < c {
        lemma_rounds(config, inputs, s + 1, c);
    }
}

/// The transcript of the commit rounds: each absorbs its commitment, then draws its
/// challenge.
pub open spec fn round_events<C>(commits: Seq<C>, samples: Seq<Felt>) -> Seq<Event<C>>
    decreases commits.len(),
{
    if commits.len() == 0 || samples.len() == 0 {
        Seq::empty()
    } else {
        round_events(commits.drop_last(), samples.drop_last()) + seq![
            Event::Commitment(commits.last()),
            Event::Sample(samples.last()),
        ]
    }
}

/// Absorbing each of `xs` in turn.
pub open spec fn element_events<C>(xs: Seq<Felt>) -> Seq<Event<C>> {
    Seq::new(xs.len(), |i: int| Event::Element(xs[i]))
}

/// Drawing `raws.len()` numbers of `bits` bits, the draws being `raws`.
pub open spec fn bits_events<C>(bits: usize, raws: Seq<usize>) -> Seq<Event<C>> {
    Seq::new(raws.len(), |i: int| Event::SampleBits(bits, raws[i]))
}

/// The challenges a run uses: the drawn elements, reduced.
pub open spec fn reduced(samples: Seq<Felt>) -> Seq<int> {
    Seq::new(samples.len(), |t: int| samples[t].val as int % crate::field::p())
}

/// `r` is what `prove` sends when the transcript went from `before` to `after` and drew
/// `samples` in the commit rounds and `raws` in the query phase: one round per commitment,
/// each absorbing it and drawing a challenge; then the final polynomial is absorbed, one
/// proof-of-work witness ground, and `num_queries` indices of `L0` bits drawn; the folding
/// challenges are the drawn elements and each query index the drawn bits.
pub open spec fn fri_run<C, P, W, I>(
    r: FriProof<C, P, W, I>,
    before: Seq<Event<C>>,
    after: Seq<Event<C>>,
    config: FriConfig,
    inputs: Seq<Codeword>,
    samples: Seq<Felt>,
    raws: Seq<usize>,
) -> bool {
    let l0 = first_log(inputs);
    &&& samples.len() == r.commit_phase_commits@.len()
    &&& raws.len() == r.query_proofs@.len()
    &&& after == before + round_events(r.commit_phase_commits@, samples) + element_events(r.final_poly@)
        + seq![Event::Grind(config.proof_of_work_bits)] + bits_events(l0 as usize, raws)
    &&& forall|q: int| 0 <= q < raws.len() ==> (#[trigger] r.query_proofs@[q]).index == raws[q] as nat % pow2(l0)
    &&& fri_transcript_ok(r, config, inputs, reduced(samples))
}

/// The prover data `data` of the rounds commits, in round `l + 1`, exactly the words in play
/// laid out as `layer_matches` says, and each query's step-`l` proof is an authentication
/// path, in `data[l]`, for the row the query reaches there: its index shifted right by
/// `log_folding_arity * (l + 1)` bits.
pub open spec fn fri_commitments_ok<M: Mmcs, W, I>(
    mmcs: M,
    r: FriProof<M::Commitment, M::Proof, W, I>,
    config: FriConfig,
    inputs: Seq<Codeword>,
    data: Seq<M::ProverData>,
    betas: Seq<int>,
) -> bool {
    let a = config.log_folding_arity as nat;
    let n = r.commit_phase_commits@.len();
    &&& data.len() == n
    &&& forall|l: int| 0 <= l < n ==> layer_matches(mmcs.committed(#[trigger] data[l]), inputs, a, betas, (l + 1) as nat)
    &&& forall|q: int, l: int|
        0 <= q < r.query_proofs@.len() && 0 <= l < n ==> mmcs.path_ok(
            query_index(r.query_proofs@[q].index as nat, a, (l + 1) as nat) as usize,
            data[l],
            (#[trigger] r.query_proofs@[q].commit_phase_openings@[l]).proof,
        )
}

/// What the commit rounds leave: one commitment, prover data and layer per round, the state
/// after the last round, and the challenges drawn.
pub struct CommitRounds<C, PD> {
    pub commits: Vec<C>,
    pub data: Vec<PD>,
    pub layers: Vec<Vec<RowMajorMatrix<Felt>>>,
    pub state: CommitPhase,
    pub betas: Ghost<Seq<int>>,
    pub samples: Ghost<Seq<Felt>>,
    pub logs: Ghost<Seq<nat>>,
}

/// The layer matrices of round `r` are the words in play laid out in rows of `2^(L - l)`.
pub open spec fn layer_matches(
    mats: Seq<RowMajorMatrix<Felt>>,
    inputs: Seq<Codeword>,
    a: nat,
    betas: Seq<int>,
    r: nat,
) -> bool {
    let act = round_active(inputs, a, betas, r);
    &&& mats.len() == act.len()
    &&& forall|k: int|
        0 <= k < mats.len() ==> (#[trigger] mats[k]).values@ == act[k].1 && mats[k].width == pow2(
            (act[k].0 - log_at(first_log(inputs), a, r)) as nat,
        )
}

#[verifier::rlimit(100)]
/// Runs the commit rounds: each opens a round, commits to its words, observes the
/// commitment, samples a challenge and folds.
fn commit_rounds<M: Mmcs, Ch: Challenger<M::Commitment>>(
    config: &FriConfig,
    mmcs: &M,
    inputs: Vec<Codeword>,
    challenger: &mut Ch,
) -> (res: CommitRounds<M::Commitment, M::ProverData>)
    requires
        prove_ok(*config, inputs@),
    ensures
        ({
            let n = res.layers@.len();
            let a = config.log_folding_arity as nat;
            let l0 = first_log(inputs@);
            &&& res.commits@.len() == n
            &&& res.data@.len() == n
            &&& n == num_rounds(*config, inputs@)
            &&& n >= 1
            &&& res.betas@.len() == n
            &&& res.betas@ == reduced(res.samples@)
            &&& res.samples@.len() == n
            &&& final(challenger).transcript() == old(challenger).transcript() + round_events(res.commits@, res.samples@)
            &&& res.state.wf()
            &&& res.state.active@.len() == 1
            &&& res.state.log_word_len == log_at(l0, a, n)
            &&& res.state.active@[0].log_word_len == res.state.log_word_len
            &&& res.state.active@[0].word@ == word_at(inputs@, a, res.betas@, n)
            &&& config.log_blowup <= res.state.log_word_len
            &&& !(res.state.next < res.state.inputs@.len() || res.state.log_word_len > config.log_blowup
                + config.log_max_final_poly_len)
            &&& res.logs@.len() == n
            &&& res.logs@.last() == res.state.log_word_len
            &&& chain_ok(res.logs@, a, l0)
            &&& forall|l: int| 0 <= l < n ==> layer_ok((#[trigger] res.layers@[l])@, a, res.logs@[l])
            &&& forall|l: int| 0 <= l < n ==> layer_matches((#[trigger] res.layers@[l])@, inputs@, a, res.betas@, (l + 1) as nat)
            &&& forall|l: int| 0 <= l < n ==> layer_matches(mmcs.committed(#[trigger] res.data@[l]), inputs@, a, res.betas@, (l + 1) as nat)
        }),
{
    let ghost inputs0 = inputs@;
    let mut state = CommitPhase::new(inputs);
    let ghost l0 = state.log_word_len as nat;
    let a = config.log_folding_arity;
    proof {
        assert(log_at(first_log(inputs0), a as nat, 0) >= config.log_blowup + a);
    }
    let mut commits: Vec<M::Commitment> = Vec::new();
    let mut data: Vec<M::ProverData> = Vec::new();
    let mut layers: Vec<Vec<RowMajorMatrix<Felt>>> = Vec::new();
    let ghost mut logs: Seq<nat> = Seq::empty();
    let ghost mut betas: Seq<int> = Seq::empty();
    let ghost mut samples: Seq<Felt> = Seq::empty();
    let ghost t0 = challenger.transcript();
    while state.has_round(config)
        invariant
            samples.len() == layers@.len(),
            betas == reduced(samples),
            challenger.transcript() == t0 + round_events(commits@, samples),
            prove_ok(*config, inputs0),
            a == config.log_folding_arity,
            state.wf(),
            state.inputs@ == inputs0,
            l0 == first_log(inputs0),
            state.log_word_len >= config.log_blowup,
            state.log_word_len == log_at(l0, a as nat, layers@.len() as nat),
            state.log_word_len + layers@.len() <= l0,
            state.next == next_at(inputs0, a as nat, layers@.len() as nat),
            layers@.len() > 0 ==> state.active@.len() == 1 && state.active@[0].log_word_len == state.log_word_len
                && state.active@[0].word@ == word_at(inputs0, a as nat, betas, layers@.len() as nat),
            layers@.len() == 0 ==> state.active@.len() == 0,
            forall|r: nat| 1 <= r < layers@.len() ==> !#[trigger] stops_at(*config, inputs0, r),
            betas.len() == layers@.len(),
            commits@.len() == layers@.len(),
            data@.len() == layers@.len(),
            logs.len() == layers@.len(),
            chain_ok(logs, a as nat, l0),
            logs.len() > 0 ==> state.log_word_len == logs.last(),
            forall|l: int| 0 <= l < layers@.len() ==> layer_ok((#[trigger] layers@[l])@, a as nat, logs[l]),
            forall|l: int| 0 <= l < layers@.len() ==> layer_matches((#[trigger] layers@[l])@, inputs0, a as nat, betas, (l + 1) as nat),
            forall|l: int| 0 <= l < layers@.len() ==> layer_matches(mmcs.committed(#[trigger] data@[l]), inputs0, a as nat, betas, (l + 1) as nat),
        decreases state.log_word_len,
    {
        let ghost prev = state;
        let ghost cnt = layers@.len() as nat;
        proof {
            if cnt >= 1 {
                assert(!stops_at(*config, inputs0, cnt));
            }
            assert(log_at(first_log(inputs0), a as nat, cnt) >= config.log_blowup + a);
        }
        let mats = state.open_round(a);
        let ghost lw = state.log_word_len as nat;
        proof {
            assert(lw == log_at(l0, a as nat, cnt + 1));
            assert(state.next == next_at(inputs0, a as nat, cnt + 1));
            assert(pairs_of(state.active@) =~= round_active(inputs0, a as nat, betas, cnt + 1)) by {
                let act = round_active(inputs0, a as nat, betas, cnt + 1);
                assert forall|k: int| 0 <= k < state.active@.len() implies #[trigger] pairs_of(state.active@)[k] == act[k] by {
                    if k < prev.active@.len() {
                    } else {
                        let j = prev.next + k - prev.active@.len();
                        assert(same_codeword(state.active@[k], inputs0[j]));
                    }
                }
            }
            assert forall|k: int| 0 <= k < mats@.len() implies (#[trigger] mats@[k]).wf() && pow2(a as nat)
                % (mats@[k].width as nat) == 0 && mats@[k].height_spec() == pow2(lw) by {
                let n = state.active@[k].log_word_len as nat;
                if k < prev.active@.len() {
                    assert(n == prev.log_word_len);
                } else {
                    let j = prev.next + k - prev.active@.len();
                    assert(same_codeword(state.active@[k], inputs0[j]));
                    if j > prev.next {
                        assert(inputs0[prev.next as int].log_word_len > inputs0[j].log_word_len);
                    }
                }
                assert(n <= lw + a);
                lemma_layer_matrix(n, lw, a as nat);
            }
        }
        let mut layer: Vec<RowMajorMatrix<Felt>> = Vec::new();
        let mut k: usize = 0;
        while k < mats.len()
            invariant
                k <= mats@.len(),
                layer@.len() == k,
                forall|j: int|
                    0 <= j < k ==> (#[trigger] layer@[j]).values@ == mats@[j].values@ && layer@[j].width
                        == mats@[j].width,
            decreases mats@.len() - k,
        {
            layer.push(copy_matrix(&mats[k]));
            k = k + 1;
        }
        proof {
            assert(layer_ok(layer@, a as nat, lw));
            assert(layer_matches(layer@, inputs0, a as nat, betas, cnt + 1));
        }
        let ghost opened = state;
        let ghost old_commits = commits@;
        let ghost old_data = data@;
        let ghost old_samples = samples;
        let (commit, prover_data) = mmcs.commit(mats);
        challenger.observe_commitment(&commit);
        let sampled = challenger.sample_element();
        let beta = Felt::from_u64(sampled.val as u64);
        state.close_round(beta);
        commits.push(commit);
        data.push(prover_data);
        layers.push(layer);
        proof {
            lemma_sum_pairs(opened.active@, lw, beta.val as int);
            let nb = betas.push(beta.val as int);
            lemma_word_prefix(inputs0, a as nat, betas, beta.val as int, cnt);
            assert forall|l: int| 0 <= l < cnt implies layer_matches((#[trigger] layers@[l])@, inputs0, a as nat, nb, (l + 1) as nat) by {
                lemma_word_prefix(inputs0, a as nat, betas, beta.val as int, l as nat);
            }
            assert(layer_matches(mmcs.committed(prover_data), inputs0, a as nat, betas, cnt + 1));
            assert forall|l: int| 0 <= l < cnt + 1 implies layer_matches(mmcs.committed(#[trigger] data@[l]), inputs0, a as nat, nb, (l + 1) as nat) by {
                lemma_word_prefix(inputs0, a as nat, betas, beta.val as int, l as nat);
                if l < cnt {
                    assert(data@[l] == old_data[l]);
                }
            }
            assert(nb[cnt as int] == beta.val as int);
            assert(state.active@[0].word@ == word_at(inputs0, a as nat, nb, cnt + 1));
            assert(commits@.drop_last() == old_commits);
            samples = samples.push(sampled);
            assert(samples.drop_last() == old_samples);
            assert(betas.push(beta.val as int) =~= reduced(samples));
            betas = nb;
            logs = logs.push(lw);
            assert forall|l: int| 0 <= l < layers@.len() implies layer_ok((#[trigger] layers@[l])@, a as nat, logs[l]) by {}
            assert forall|l: int| 0 <= l < layers@.len() implies layer_matches((#[trigger] layers@[l])@, inputs0, a as nat, betas, (l + 1) as nat) by {}
        }
    }
    proof {
        let n = layers@.len() as nat;
        assert(n >= 1);
        lemma_rounds(*config, inputs0, 1, n);
    }
    CommitRounds { commits, data, layers, state, betas: Ghost(betas), samples: Ghost(samples), logs: Ghost(logs) }
}

/// A copy of the openings of one layer.
fn copy_openings(v: &Vec<Vec<Felt>>) -> (r: Vec<Vec<Felt>>)
    ensures
        r@.len() == v@.len(),
        forall|k: int| 0 <= k < v@.len() ==> (#[trigger] r@[k])@ == v@[k]@,
{
    let mut r: Vec<Vec<Felt>> = Vec::new();
    let mut k: usize = 0;
    while k < v.len()
        invariant
            k <= v@.len(),
            r@.len() == k,
            forall|j: int| 0 <= j < k ==> (#[trigger] r@[j])@ == v@[j]@,
        decreases v@.len() - k,
    {
        r.push(crate::commit_phase::copy_word(&v[k]));
        k = k + 1;
    }
    r
}

#[verifier::rlimit(100)]
/// Proves that `inputs`, Reed-Solomon codewords of strictly decreasing lengths sharing the
/// blowup `config.log_blowup`, are close to low-degree codewords. The commit phase folds
/// them round by round, committing to each round's words and folding with a sampled
/// challenge; the last word is decoded into the final polynomial, which is observed; then
/// a proof-of-work witness is ground and `num_queries` indices are sampled and answered
/// against every committed layer. The number of rounds and the final polynomial's length
/// follow from the configuration and the input lengths; the values follow from the
/// challenges the transcript hands out, whatever they are.
pub fn prove<M: Mmcs, Ch: Challenger<M::Commitment>, D: TwoAdicSubgroupDft, I, F: Fn(usize) -> I>(
    config: &FriConfig,
    mmcs: &M,
    dft: &D,
    inputs: Vec<Codeword>,
    challenger: &mut Ch,
    prove_input: F,
) -> (r: FriProof<M::Commitment, M::Proof, Ch::Witness, I>)
    requires
        prove_ok(*config, inputs@),
        forall|i: usize| i < pow2(first_log(inputs@)) ==> #[trigger] prove_input.requires((i,)),
    ensures
        forall|q: int|
            0 <= q < r.query_proofs@.len() ==> prove_input.ensures(
                ((#[trigger] r.query_proofs@[q]).index,),
                r.query_proofs@[q].input_proof,
            ),
        r.commit_phase_commits@.len() == num_rounds(*config, inputs@),
        r.final_poly@.len() == pow2(
            (log_at(first_log(inputs@), config.log_folding_arity as nat, num_rounds(*config, inputs@))
                - config.log_blowup) as nat,
        ),
        r.final_poly@.len() == pow2(
            (first_log(inputs@) - config.log_folding_arity * num_rounds(*config, inputs@)
                - config.log_blowup) as nat,
        ),
        r.final_poly@.len() <= pow2(config.log_max_final_poly_len as nat),
        r.query_proofs@.len() == config.num_queries,
        forall|q: int|
            0 <= q < r.query_proofs@.len() ==> (#[trigger] r.query_proofs@[q]).commit_phase_openings@.len()
                == r.commit_phase_commits@.len() && r.query_proofs@[q].index < pow2(first_log(inputs@)),
        exists|samples: Seq<Felt>, raws: Seq<usize>|
            #[trigger] fri_run(
                r,
                old(challenger).transcript(),
                final(challenger).transcript(),
                *config,
                inputs@,
                samples,
                raws,
            ),
        exists|samples: Seq<Felt>, raws: Seq<usize>, data: Seq<M::ProverData>|
            #[trigger] fri_run(r, old(challenger).transcript(), final(challenger).transcript(), *config, inputs@, samples, raws)
                && #[trigger] fri_commitments_ok(*mmcs, r, *config, inputs@, data, reduced(samples)),
{
    let ghost inputs0 = inputs@;
    let a = config.log_folding_arity;
    proof {
        assert(log_at(first_log(inputs0), a as nat, 0) >= config.log_blowup + a);
        assert(inputs0[0].wf());
    }
    let rounds = commit_rounds(config, mmcs, inputs, challenger);
    let CommitRounds { commits, data, layers, state, betas, samples, logs } = rounds;
    let ghost betas = betas@;
    let ghost samples = samples@;
    let ghost t0 = old(challenger).transcript();
    let ghost t1 = challenger.transcript();
    let ghost logs = logs@;
    let ghost l0 = first_log(inputs0);
    proof {
        lemma_final_poly_bound(state, *config);
        lemma_chain_total(logs, a as nat, l0);
        assert(state.log_word_len == l0 - a * layers@.len());
    }
    let final_poly = state.final_poly(dft, config.log_blowup);
    let mut i: usize = 0;
    while i < final_poly.len()
        invariant
            i <= final_poly@.len(),
            challenger.transcript() == t1 + element_events::<M::Commitment>(final_poly@.take(i as int)),
        decreases final_poly@.len() - i,
    {
        challenger.observe_element(final_poly[i]);
        i = i + 1;
        proof {
            assert(element_events::<M::Commitment>(final_poly@.take(i as int)) =~= element_events::<M::Commitment>(
                final_poly@.take(i - 1),
            ).push(Event::Element(final_poly@[i - 1])));
        }
    }
    proof {
        assert(final_poly@.take(final_poly@.len() as int) =~= final_poly@);
    }
    let pow_witness = challenger.grind(config.proof_of_work_bits);
    let ghost t2 = challenger.transcript();
    let ghost mut raws: Seq<usize> = Seq::empty();
    proof {
        assert(state.log_word_len - config.log_blowup + config.log_blowup + a * layers@.len() == l0);
    }
    let index_bits = query_index_bits(config, state.log_word_len - config.log_blowup, layers.len());
    let mut query_proofs: Vec<QueryProof<M::Proof, I>> = Vec::new();
    let mut q: usize = 0;
    while q < config.num_queries
        invariant
            q <= config.num_queries,
            a == config.log_folding_arity,
            1 <= a <= TWO_ADICITY,
            index_bits == l0,
            l0 <= TWO_ADICITY,
            query_proofs@.len() == q,
            raws.len() == q,
            challenger.transcript() == t2 + bits_events::<M::Commitment>(l0 as usize, raws),
            forall|j: int| 0 <= j < q ==> (#[trigger] query_proofs@[j]).index == raws[j] as nat % pow2(l0),
            commits@.len() == layers@.len(),
            data@.len() == layers@.len(),
            logs.len() == layers@.len(),
            betas.len() == layers@.len(),
            chain_ok(logs, a as nat, l0),
            forall|l: int| 0 <= l < layers@.len() ==> layer_ok((#[trigger] layers@[l])@, a as nat, logs[l]),
            forall|l: int| 0 <= l < layers@.len() ==> layer_matches((#[trigger] layers@[l])@, inputs0, a as nat, betas, (l + 1) as nat),
            forall|j: int, l: int|
                0 <= j < q && 0 <= l < layers@.len() ==> mmcs.path_ok(
                    query_index(query_proofs@[j].index as nat, a as nat, (l + 1) as nat) as usize,
                    data@[l],
                    (#[trigger] query_proofs@[j].commit_phase_openings@[l]).proof,
                ),
            forall|j: int|
                0 <= j < q ==> (#[trigger] query_proofs@[j]).commit_phase_openings@.len() == layers@.len()
                    && query_proofs@[j].index < pow2(l0),
            forall|j: int|
                0 <= j < q ==> prove_input.ensures(
                    ((#[trigger] query_proofs@[j]).index,),
                    query_proofs@[j].input_proof,
                ),
            forall|i: usize| i < pow2(l0) ==> #[trigger] prove_input.requires((i,)),
            forall|j: int, l: int|
                0 <= j < q && 0 <= l < layers@.len() ==> (#[trigger] query_proofs@[j].commit_phase_openings@[l]).openings@.len()
                    == layers@[l]@.len(),
            forall|j: int, l: int, k: int|
                0 <= j < q && 0 <= l < layers@.len() && 0 <= k < layers@[l]@.len() ==> (#[trigger] query_proofs@[j].commit_phase_openings@[l].openings@[k])@
                    == crate::fri::sibling_opening(
                    layers@[l]@[k],
                    query_index(query_proofs@[j].index as nat, a as nat, l as nat),
                    a as nat,
                ),
        decreases config.num_queries - q,
    {
        let sampled = challenger.sample_bits(index_bits);
        proof {
            crate::fri::lemma_pow2_fits(l0);
            crate::fri::lemma_pow2_fits(a as nat);
        }
        let (_, index) = split_bits(sampled, index_bits);
        proof {
            lemma_pow2_pos(l0);
            assert forall|l: int, k: int|
                0 <= l < layers@.len() && 0 <= k < layers@[l]@.len() implies (#[trigger] layers@[l]@[k]).wf()
                    && pow2(a as nat) % (layers@[l]@[k].width as nat) == 0 && query_index(index as nat, a as nat, l as nat)
                    / pow2(a as nat) < layers@[l]@[k].height_spec() by {
                assert(layer_ok(layers@[l]@, a as nat, logs[l]));
                lemma_query_reach(index as nat, a as nat, l0, logs, l as nat);
            }
        }
        let openings = answer_query(&layers, a, index);
        // Each layer's openings with the authentication path of the opened row.
        let mut steps: Vec<CommitPhaseProofStep<M::Proof>> = Vec::new();
        let mut idx = index;
        let mut l: usize = 0;
        while l < data.len()
            invariant
                l <= data@.len(),
                data@.len() == layers@.len(),
                openings@.len() == layers@.len(),
                1 <= a <= TWO_ADICITY,
                steps@.len() == l,
                forall|j: int| 0 <= j < l ==> (#[trigger] steps@[j]).openings@.len() == openings@[j]@.len(),
                forall|j: int, k: int|
                    0 <= j < l && 0 <= k < openings@[j]@.len() ==> (#[trigger] steps@[j].openings@[k])@ == openings@[j]@[k]@,
                idx == query_index(index as nat, a as nat, l as nat),
                forall|j: int|
                    0 <= j < l ==> mmcs.path_ok(
                        query_index(index as nat, a as nat, (j + 1) as nat) as usize,
                        data@[j],
                        (#[trigger] steps@[j]).proof,
                    ),
            decreases data@.len() - l,
        {
            proof {
                crate::fri::lemma_pow2_fits(a as nat);
            }
            let (row, _) = split_bits(idx, a);
            let path = mmcs.open_path(row, &data[l]);
            steps.push(CommitPhaseProofStep { openings: copy_openings(&openings[l]), proof: path });
            idx = row;
            l = l + 1;
        }
        let input_proof = prove_input(index);
        query_proofs.push(QueryProof { index, input_proof, commit_phase_openings: steps });
        proof {
            raws = raws.push(sampled);
            assert(bits_events::<M::Commitment>(l0 as usize, raws) =~= bits_events::<M::Commitment>(
                l0 as usize,
                raws.drop_last(),
            ).push(Event::SampleBits(index_bits, sampled)));
            assert(raws.drop_last() =~= raws.drop_last());
        }
        q = q + 1;
    }
    let r = FriProof { commit_phase_commits: commits, query_proofs, final_poly, pow_witness };
    proof {
        let n = layers@.len() as nat;
        assert(r.commit_phase_commits@.len() == n);
        assert forall|q: int, l: int, k: int|
            0 <= q < r.query_proofs@.len() && 0 <= l < n && 0 <= k < round_active(inputs0, a as nat, betas, (l + 1) as nat).len()
                implies (#[trigger] r.query_proofs@[q].commit_phase_openings@[l].openings@[k])@ == sibling_of(
                round_active(inputs0, a as nat, betas, (l + 1) as nat)[k].1,
                pow2((round_active(inputs0, a as nat, betas, (l + 1) as nat)[k].0 - log_at(l0, a as nat, (l + 1) as nat)) as nat),
                query_index(r.query_proofs@[q].index as nat, a as nat, l as nat),
                a as nat,
            ) by {
            assert(layer_matches(layers@[l]@, inputs0, a as nat, betas, (l + 1) as nat));
            let m = layers@[l]@[k];
            let qi = query_index(r.query_proofs@[q].index as nat, a as nat, l as nat);
            assert(r.query_proofs@[q] == query_proofs@[q]);
            assert(k < layers@[l]@.len());
            assert(query_proofs@[q].commit_phase_openings@[l].openings@[k]@ == crate::fri::sibling_opening(m, qi, a as nat));
            assert(crate::fri::sibling_opening(m, qi, a as nat) == sibling_of(m.values@, m.width as nat, qi, a as nat));
        }
        assert forall|q: int, l: int|
            0 <= q < r.query_proofs@.len() && 0 <= l < n implies (#[trigger] r.query_proofs@[q].commit_phase_openings@[l]).openings@.len()
                == round_active(inputs0, a as nat, betas, (l + 1) as nat).len() by {
            assert(layer_matches(layers@[l]@, inputs0, a as nat, betas, (l + 1) as nat));
        }
        assert(fri_transcript_ok(r, *config, inputs0, betas));
        assert(t1 == t0 + round_events(commits@, samples));
        assert(t2 =~= t0 + round_events(r.commit_phase_commits@, samples) + element_events(r.final_poly@)
            + seq![Event::Grind(config.proof_of_work_bits)]);
        assert(challenger.transcript() =~= t0 + round_events(r.commit_phase_commits@, samples) + element_events(
            r.final_poly@,
        ) + seq![Event::Grind(config.proof_of_work_bits)] + bits_events(l0 as usize, raws));
        assert(fri_run(r, t0, challenger.transcript(), *config, inputs0, samples, raws));
        assert(betas == reduced(samples));
        assert(fri_commitments_ok(*mmcs, r, *config, inputs0, data@, reduced(samples)));
    }
    r
}

} // verus!
