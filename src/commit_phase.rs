use crate::dft::{idft_vec, two_adic_size, vec_input, TwoAdicSubgroupDft};
use crate::field::{Felt, TWO_ADICITY};
use crate::fri::{f_add, fold_word, folded, folded_to, rev_bits, reverse_bits_len};
use crate::matrix::RowMajorMatrix;
use vstd::arithmetic::div_mod::*;
use vstd::arithmetic::mul::*;
use vstd::arithmetic::power2::*;
use vstd::prelude::*;

verus! {

/// A Reed-Solomon codeword of length `2^log_word_len`, in bit-reversed order.
pub struct Codeword {
    pub log_word_len: usize,
    pub word: Vec<Felt>,
}

impl Codeword {
    pub open spec fn wf(&self) -> bool {
        &&& self.log_word_len <= TWO_ADICITY
        &&& self.word@.len() == pow2(self.log_word_len as nat)
        &&& forall|j: int| 0 <= j < self.word@.len() ==> (#[trigger] self.word@[j]).wf()
    }
}

/// The parameters of the FRI protocol.
pub struct FriConfig {
    pub log_blowup: usize,
    pub log_max_final_poly_len: usize,
    pub log_folding_arity: usize,
    pub num_queries: usize,
    pub proof_of_work_bits: usize,
}

/// Entry-wise sum of two words of the same length.
pub open spec fn summed(a: Seq<Felt>, b: Seq<Felt>) -> Seq<Felt> {
    Seq::new(a.len(), |i: int| Felt { val: f_add(a[i].val as int, b[i].val as int) as u32 })
}

/// The words of `ws`, each folded with `beta` down to length `2^target`, summed.
pub open spec fn sum_folded(ws: Seq<Codeword>, target: nat, beta: int) -> Seq<Felt>
    decreases ws.len(),
{
    if ws.len() == 0 {
        Seq::new(pow2(target), |i: int| Felt { val: 0 })
    } else {
        summed(
            sum_folded(ws.drop_last(), target, beta),
            folded_to(ws.last().word@, ws.last().log_word_len as nat, target, beta),
        )
    }
}

pub open spec fn canonical(s: Seq<Felt>) -> bool {
    forall|j: int| 0 <= j < s.len() ==> (#[trigger] s[j]).wf()
}

/// Folds `word`, of length `2^n`, with `beta` until its length is `2^target`.
pub fn fold_to_log_word_len(word: Vec<Felt>, n: usize, target: usize, beta: Felt) -> (r: Vec<Felt>)
    requires
        target <= n <= TWO_ADICITY,
        word@.len() == pow2(n as nat),
        canonical(word@),
        beta.wf(),
    ensures
        r@ == folded_to(word@, n as nat, target as nat, beta.val as int),
        r@.len() == pow2(target as nat),
        canonical(r@),
{
    let mut w = word;
    let mut k = n;
    while k > target
        invariant
            target <= k <= TWO_ADICITY,
            w@.len() == pow2(k as nat),
            canonical(w@),
            beta.wf(),
            folded_to(w@, k as nat, target as nat, beta.val as int) == folded_to(
                word@,
                n as nat,
                target as nat,
                beta.val as int,
            ),
        decreases k,
    {
        w = fold_word(&w, k, beta);
        k = k - 1;
    }
    w
}

/// Entry-wise sum of two words of the same length.
pub fn add_words(a: &Vec<Felt>, b: &Vec<Felt>) -> (r: Vec<Felt>)
    requires
        a@.len() == b@.len(),
        canonical(a@),
        canonical(b@),
    ensures
        r@ == summed(a@, b@),
        canonical(r@),
{
    let mut r: Vec<Felt> = Vec::new();
    let mut i: usize = 0;
    while i < a.len()
        invariant
            a@.len() == b@.len(),
            canonical(a@),
            canonical(b@),
            i <= a@.len(),
            r@.len() == i,
            forall|k: int| 0 <= k < i ==> #[trigger] r@[k] == summed(a@, b@)[k],
            canonical(r@),
        decreases a@.len() - i,
    {
        r.push(a[i].add(b[i]));
        i = i + 1;
    }
    proof {
        assert(r@ =~= summed(a@, b@));
    }
    r
}

/// A copy of `v`.
pub fn copy_word(v: &Vec<Felt>) -> (r: Vec<Felt>)
    ensures
        r@ == v@,
{
    let mut r: Vec<Felt> = Vec::new();
    let mut i: usize = 0;
    while i < v.len()
        invariant
            i <= v@.len(),
            r@ == v@.subrange(0, i as int),
        decreases v@.len() - i,
    {
        r.push(v[i]);
        i = i + 1;
        assert(r@ =~= v@.subrange(0, i as int));
    }
    assert(r@ =~= v@);
    r
}

/// Folds each of `active` with `beta` down to length `2^target` and sums the results: the
/// words now belong to the same code, so one commitment covers them all.
pub fn fold_and_sum(active: &Vec<Codeword>, target: usize, beta: Felt) -> (r: Vec<Felt>)
    requires
        target <= TWO_ADICITY,
        beta.wf(),
        forall|k: int|
            0 <= k < active@.len() ==> (#[trigger] active@[k]).wf() && target
                <= active@[k].log_word_len,
    ensures
        r@ == sum_folded(active@, target as nat, beta.val as int),
        r@.len() == pow2(target as nat),
        canonical(r@),
{
    let mut acc: Vec<Felt> = Vec::new();
    let mut j: usize = 0;
    proof {
        lemma_word_layout(target as nat, 0);
    }
    let n = crate::dft::extended_height(1, target);
    while j < n
        invariant
            n == pow2(target as nat),
            j <= n,
            acc@.len() == j,
            forall|k: int| 0 <= k < j ==> #[trigger] acc@[k] == (Felt { val: 0 }),
        decreases n - j,
    {
        acc.push(Felt::zero());
        j = j + 1;
    }
    proof {
        assert(acc@ =~= sum_folded(active@.take(0), target as nat, beta.val as int));
    }
    let mut i: usize = 0;
    while i < active.len()
        invariant
            target <= TWO_ADICITY,
            beta.wf(),
            forall|k: int|
                0 <= k < active@.len() ==> (#[trigger] active@[k]).wf() && target
                    <= active@[k].log_word_len,
            i <= active@.len(),
            acc@ == sum_folded(active@.take(i as int), target as nat, beta.val as int),
            acc@.len() == pow2(target as nat),
            canonical(acc@),
        decreases active@.len() - i,
    {
        let cw = &active[i];
        let w = fold_to_log_word_len(copy_word(&cw.word), cw.log_word_len, target, beta);
        acc = add_words(&acc, &w);
        proof {
            assert(active@.take(i + 1).drop_last() =~= active@.take(i as int));
        }
        i = i + 1;
    }
    proof {
        assert(active@.take(active@.len() as int) =~= active@);
    }
    acc
}

/// The state of the commit phase between rounds: the inputs not yet folded in, the words in
/// play this round, and the current log length.
pub struct CommitPhase {
    pub inputs: Vec<Codeword>,
    pub next: usize,
    pub active: Vec<Codeword>,
    pub log_word_len: usize,
}

/// The index of the first input from `from` on that is no longer than `2^l`, or the
/// number of inputs: the inputs a round at log length `l` brings in end there.
pub open spec fn next_active(inputs: Seq<Codeword>, from: nat, l: nat) -> nat
    decreases inputs.len() - from,
{
    if from >= inputs.len() || inputs[from as int].log_word_len <= l {
        from
    } else {
        next_active(inputs, from + 1, l)
    }
}

/// A word of log length `.0` with entries `.1`.
pub open spec fn pairs_of(ws: Seq<Codeword>) -> Seq<(nat, Seq<Felt>)> {
    Seq::new(ws.len(), |k: int| (ws[k].log_word_len as nat, ws[k].word@))
}

/// The words of `ws`, each folded with `beta` down to length `2^target`, summed.
pub open spec fn sum_pairs(ws: Seq<(nat, Seq<Felt>)>, target: nat, beta: int) -> Seq<Felt>
    decreases ws.len(),
{
    if ws.len() == 0 {
        Seq::new(pow2(target), |i: int| Felt { val: 0 })
    } else {
        summed(sum_pairs(ws.drop_last(), target, beta), folded_to(ws.last().1, ws.last().0, target, beta))
    }
}

pub proof fn lemma_sum_pairs(ws: Seq<Codeword>, target: nat, beta: int)
    ensures
        sum_folded(ws, target, beta) == sum_pairs(pairs_of(ws), target, beta),
    decreases ws.len(),
{
    if ws.len() > 0 {
        lemma_sum_pairs(ws.drop_last(), target, beta);
        assert(pairs_of(ws).drop_last() =~= pairs_of(ws.drop_last()));
    }
}

/// Two codewords with the same length and entries.
pub open spec fn same_codeword(a: Codeword, b: Codeword) -> bool {
    a.log_word_len == b.log_word_len && a.word@ == b.word@
}

/// The inputs are well formed and strictly decreasing in length.
pub open spec fn inputs_ok(inputs: Seq<Codeword>) -> bool {
    &&& inputs.len() > 0
    &&& forall|k: int| 0 <= k < inputs.len() ==> (#[trigger] inputs[k]).wf()
    &&& forall|k: int, l: int|
        0 <= k < l < inputs.len() ==> (#[trigger] inputs[k]).log_word_len
            > (#[trigger] inputs[l]).log_word_len
}

impl CommitPhase {
    pub open spec fn wf(&self) -> bool {
        &&& inputs_ok(self.inputs@)
        &&& self.next <= self.inputs@.len()
        &&& self.log_word_len <= TWO_ADICITY
        &&& self.next < self.inputs@.len() ==> self.inputs@[self.next as int].log_word_len
            <= self.log_word_len
        &&& forall|k: int|
            0 <= k < self.active@.len() ==> (#[trigger] self.active@[k]).wf()
                && self.log_word_len <= self.active@[k].log_word_len
    }

    /// Starts the commit phase on `inputs`, at the length of the longest.
    pub fn new(inputs: Vec<Codeword>) -> (r: Self)
        requires
            inputs_ok(inputs@),
        ensures
            r.wf(),
            r.inputs@ == inputs@,
            r.next == 0,
            r.active@.len() == 0,
            r.log_word_len == inputs@[0].log_word_len,
    {
        let l = inputs[0].log_word_len;
        CommitPhase { inputs, next: 0, active: Vec::new(), log_word_len: l }
    }

    /// Whether another round is owed: inputs remain, or the word is still longer than
    /// `2^(log_blowup + log_max_final_poly_len)`.
    pub fn has_round(&self, config: &FriConfig) -> (r: bool)
        ensures
            r == (self.next < self.inputs@.len() || self.log_word_len
                > config.log_blowup + config.log_max_final_poly_len),
    {
        self.next < self.inputs.len() || (self.log_word_len > config.log_blowup
            && self.log_word_len - config.log_blowup > config.log_max_final_poly_len)
    }

    /// Opens a round: lowers the log length by the folding arity, brings in every input
    /// longer than the new length, and lays each word in play out as a matrix whose rows
    /// hold the siblings that fold together.
    pub fn open_round(&mut self, log_folding_arity: usize) -> (mats: Vec<RowMajorMatrix<Felt>>)
        requires
            old(self).wf(),
            log_folding_arity <= old(self).log_word_len,
            old(self).active@.len() <= 1,
        ensures
            final(self).wf(),
            final(self).inputs@ == old(self).inputs@,
            final(self).log_word_len == old(self).log_word_len - log_folding_arity,
            old(self).next <= final(self).next,
            final(self).next == next_active(final(self).inputs@, old(self).next as nat, final(self).log_word_len as nat),
            final(self).active@.len() == old(self).active@.len() + (final(self).next - old(self).next),
            forall|k: int| 0 <= k < old(self).active@.len() ==> #[trigger] final(self).active@[k] == old(self).active@[k],
            forall|k: int|
                old(self).active@.len() <= k < final(self).active@.len() ==> same_codeword(
                    #[trigger] final(self).active@[k],
                    final(self).inputs@[old(self).next + k - old(self).active@.len()],
                ),
            forall|k: int|
                old(self).next <= k < final(self).next ==> #[trigger] final(self).inputs@[k].log_word_len
                    > final(self).log_word_len,
            final(self).next < final(self).inputs@.len() ==> final(self).inputs@[final(self).next as int].log_word_len <= final(self).log_word_len,
            mats@.len() == final(self).active@.len(),
            forall|k: int|
                0 <= k < mats@.len() ==> (#[trigger] mats@[k]).values@ == final(self).active@[k].word@ && mats@[k].width == pow2(
                    (final(self).active@[k].log_word_len - final(self).log_word_len) as nat,
                ) && mats@[k].wf(),
    {
        self.log_word_len = self.log_word_len - log_folding_arity;
        let ghost active0 = self.active@;
        let ghost next0 = self.next;
        let ghost inputs0 = self.inputs@;
        let ghost l0 = self.log_word_len;
        while self.next < self.inputs.len() && self.inputs[self.next].log_word_len > self.log_word_len
            invariant
                inputs_ok(self.inputs@),
                next0 <= self.next <= self.inputs@.len(),
                self.log_word_len <= TWO_ADICITY,
                self.inputs@ == inputs0,
                self.log_word_len == l0,
                next_active(inputs0, self.next as nat, l0 as nat) == next_active(inputs0, next0 as nat, l0 as nat),
                self.active@.len() == active0.len() + (self.next - next0),
                forall|k: int| 0 <= k < active0.len() ==> #[trigger] self.active@[k] == active0[k],
                forall|k: int|
                    active0.len() <= k < self.active@.len() ==> same_codeword(
                        #[trigger] self.active@[k],
                        self.inputs@[next0 + k - active0.len()],
                    ),
                forall|k: int| next0 <= k < self.next ==> #[trigger] self.inputs@[k].log_word_len > self.log_word_len,
                forall|k: int|
                    0 <= k < active0.len() ==> (#[trigger] active0[k]).wf()
                        && self.log_word_len <= active0[k].log_word_len,
            decreases self.inputs@.len() - self.next,
        {
            let cw = &self.inputs[self.next];
            let copy = Codeword { log_word_len: cw.log_word_len, word: copy_word(&cw.word) };
            self.active.push(copy);
            self.next = self.next + 1;
        }
        let mut mats: Vec<RowMajorMatrix<Felt>> = Vec::new();
        let mut k: usize = 0;
        while k < self.active.len()
            invariant
                self.inputs@ == inputs0,
                self.log_word_len == l0,
                self.log_word_len <= TWO_ADICITY,
                forall|j: int|
                    0 <= j < self.active@.len() ==> (#[trigger] self.active@[j]).wf()
                        && self.log_word_len <= self.active@[j].log_word_len,
                k <= self.active@.len(),
                mats@.len() == k,
                forall|j: int|
                    0 <= j < k ==> (#[trigger] mats@[j]).values@ == self.active@[j].word@
                        && mats@[j].width == pow2((self.active@[j].log_word_len - self.log_word_len) as nat)
                        && mats@[j].wf(),
            decreases self.active@.len() - k,
        {
            let cw = &self.active[k];
            proof {
                lemma_word_layout(cw.log_word_len as nat, self.log_word_len as nat);
            }
            let width = crate::dft::extended_height(1, cw.log_word_len - self.log_word_len);
            mats.push(RowMajorMatrix::new(copy_word(&cw.word), width));
            k = k + 1;
        }
        mats
    }

    /// Closes a round with the challenge `beta`: every word in play is folded down to the
    /// current length and the results are summed into the one word that carries on.
    pub fn close_round(&mut self, beta: Felt)
        requires
            old(self).wf(),
            beta.wf(),
        ensures
            final(self).wf(),
            final(self).inputs@ == old(self).inputs@,
            final(self).next == old(self).next,
            final(self).log_word_len == old(self).log_word_len,
            final(self).active@.len() == 1,
            final(self).active@[0].log_word_len == old(self).log_word_len,
            final(self).active@[0].word@ == sum_folded(
                old(self).active@,
                old(self).log_word_len as nat,
                beta.val as int,
            ),
    {
        let w = fold_and_sum(&self.active, self.log_word_len, beta);
        let mut active: Vec<Codeword> = Vec::new();
        active.push(Codeword { log_word_len: self.log_word_len, word: w });
        self.active = active;
    }
}

/// `v` with its indices bit-reversed: entry `i` is entry `rev_bits(i)` of `v`.
pub open spec fn bit_reversed(v: Seq<Felt>, bits: nat) -> Seq<Felt> {
    Seq::new(v.len(), |i: int| v[rev_bits(i as nat, bits) as int])
}

/// Reorders `v`, of length `2^bits`, by bit-reversing its indices.
pub fn reverse_slice_index_bits(v: &Vec<Felt>, bits: usize) -> (r: Vec<Felt>)
    requires
        bits <= TWO_ADICITY,
        v@.len() == pow2(bits as nat),
    ensures
        r@ == bit_reversed(v@, bits as nat),
{
    let mut r: Vec<Felt> = Vec::new();
    let mut i: usize = 0;
    while i < v.len()
        invariant
            bits <= TWO_ADICITY,
            v@.len() == pow2(bits as nat),
            i <= v@.len(),
            r@.len() == i,
            forall|k: int| 0 <= k < i ==> #[trigger] r@[k] == v@[rev_bits(k as nat, bits as nat) as int],
        decreases v@.len() - i,
    {
        let j = reverse_bits_len(i, bits);
        r.push(v[j]);
        i = i + 1;
    }
    proof {
        assert(r@ =~= bit_reversed(v@, bits as nat));
    }
    r
}

impl CommitPhase {
    /// Decodes the one word left when no round is owed into the final polynomial: its
    /// coefficients, of which there are `2^(log_word_len - log_blowup)`.
    pub fn final_poly<D: TwoAdicSubgroupDft>(&self, dft: &D, log_blowup: usize) -> (r: Vec<Felt>)
        requires
            self.wf(),
            self.active@.len() == 1,
            self.active@[0].log_word_len == self.log_word_len,
            log_blowup <= self.log_word_len,
        ensures
            r@.len() == pow2((self.log_word_len - log_blowup) as nat),
            forall|i: int|
                0 <= i < r@.len() ==> (#[trigger] r@[i]).wf() && r@[i].val == idft_vec(
                    bit_reversed(self.active@[0].word@, self.log_word_len as nat),
                )[i],
    {
        let cw = &self.active[0];
        let natural = reverse_slice_index_bits(&cw.word, self.log_word_len);
        let ghost nat_seq = natural@;
        proof {
            assert(two_adic_size(natural@.len()));
            assert forall|j: int| 0 <= j < natural@.len() implies (#[trigger] natural@[j]).wf() by {
                crate::fri::lemma_rev_bits_bound(j as nat, self.log_word_len as nat);
            }
            assert(vec_input(natural@));
        }
        let coeffs = dft.idft(natural);
        proof {
            lemma_word_layout((self.log_word_len - log_blowup) as nat, 0);
        }
        let keep = crate::dft::extended_height(1, self.log_word_len - log_blowup);
        proof {
            lemma_pow2_pos(log_blowup as nat);
            lemma_pow2_adds((self.log_word_len - log_blowup) as nat, log_blowup as nat);
            let k = pow2((self.log_word_len - log_blowup) as nat) as int;
            let b = pow2(log_blowup as nat) as int;
            assert(((self.log_word_len - log_blowup) + log_blowup) as nat == self.log_word_len as nat);
            assert(pow2(self.log_word_len as nat) == k * b);
            assert(k <= k * b) by (nonlinear_arith)
                requires
                    b >= 1,
                    k >= 0,
            ;
            assert(keep <= coeffs@.len());
        }
        let mut r: Vec<Felt> = Vec::new();
        let mut i: usize = 0;
        while i < keep
            invariant
                keep == pow2((self.log_word_len - log_blowup) as nat),
                keep <= coeffs@.len(),
                coeffs@.len() == nat_seq.len(),
                forall|k: int|
                    0 <= k < nat_seq.len() ==> (#[trigger] coeffs@[k]).wf() && coeffs@[k].val == idft_vec(nat_seq)[k],
                i <= keep,
                r@ == coeffs@.subrange(0, i as int),
            decreases keep - i,
        {
            r.push(coeffs[i]);
            i = i + 1;
            assert(r@ =~= coeffs@.subrange(0, i as int));
        }
        r
    }
}

/// When no round is owed and the word is at least as long as the blowup, the final
/// polynomial has at most `2^log_max_final_poly_len` coefficients: its degree is below
/// that bound.
pub proof fn lemma_final_poly_bound(state: CommitPhase, config: FriConfig)
    requires
        state.wf(),
        !(state.next < state.inputs@.len() || state.log_word_len > config.log_blowup
            + config.log_max_final_poly_len),
        config.log_blowup <= state.log_word_len,
    ensures
        pow2((state.log_word_len - config.log_blowup) as nat) <= pow2(
            config.log_max_final_poly_len as nat,
        ),
{
    let a = (state.log_word_len - config.log_blowup) as nat;
    let b = config.log_max_final_poly_len as nat;
    if a < b {
        lemma_pow2_strictly_increases(a, b);
    }
}

/// How many bits a query index has: `log_blowup + log2(final poly length) +
/// log_folding_arity * (number of committed layers)`.
pub fn query_index_bits(config: &FriConfig, log_final_poly_len: usize, num_layers: usize) -> (r: usize)
    requires
        config.log_blowup + log_final_poly_len + config.log_folding_arity * num_layers <= usize::MAX,
    ensures
        r == config.log_blowup + log_final_poly_len + config.log_folding_arity * num_layers,
{
    config.log_blowup + log_final_poly_len + config.log_folding_arity * num_layers
}

/// A copy of `m`.
pub fn copy_matrix(m: &RowMajorMatrix<Felt>) -> (r: RowMajorMatrix<Felt>)
    ensures
        r.values@ == m.values@,
        r.width == m.width,
{
    RowMajorMatrix { values: copy_word(&m.values), width: m.width }
}

/// A word of length `2^n` laid out in rows of `2^(n - l)` entries.
pub proof fn lemma_word_layout(n: nat, l: nat)
    requires
        l <= n <= TWO_ADICITY,
    ensures
        pow2((n - l) as nat) > 0,
        pow2(n) % pow2((n - l) as nat) == 0,
        pow2((n - l) as nat) <= usize::MAX,
        1 * pow2((n - l) as nat) <= usize::MAX,
{
    lemma_pow2_pos((n - l) as nat);
    lemma_pow2_pos(l);
    lemma_pow2_adds(l, (n - l) as nat);
    lemma_mod_multiples_basic(pow2(l) as int, pow2((n - l) as nat) as int);
    lemma2_to64();
    if n - l < 27 {
        lemma_pow2_strictly_increases((n - l) as nat, 27);
    }
}

} // verus!
