use crate::commit_phase::{copy_matrix, copy_word};
use crate::opening::{claims_ok, deep_quotient};
use crate::dft::{
    column, dft_input, entries_wf, eval_column, idft_column, is_idft_of, lemma_two_adic_size, log2_of,
    poly_eval, two_adic_size, TwoAdicSubgroupDft,
};
use crate::field::{two_adic_gen, two_adic_generator, Felt, GENERATOR, TWO_ADICITY};
use crate::fri::{f_div, f_mul, f_sub};
use crate::commit_phase::{Codeword, FriConfig};
use crate::fri_prover::{
    element_events, fri_run, Event, first_log, lemma_single_input_rounds, log_at, rounds_fit, stops_at, Challenger, FriProof, Mmcs,
};
use crate::matrix::RowMajorMatrix;
use crate::quotient::{
    all_wf, fold_alpha, log2_ceil_usize, quotient_values, selectors_at, split_evals, vals, vanishing, Selectors,
};
use crate::opening::coset_point;
use crate::field::{exp_mod, inv_mod, p};
use crate::dft::{idft_vec, ints};
use crate::util::log2_strict_usize;
use vstd::arithmetic::div_mod::*;
use vstd::arithmetic::power2::*;
use vstd::prelude::*;

verus! {

/// The largest of `degrees`, or 0 when there are none.
pub open spec fn max_of(degrees: Seq<usize>) -> nat
    decreases degrees.len(),
{
    if degrees.len() == 0 {
        0
    } else {
        let m = max_of(degrees.drop_last());
        if degrees.last() > m {
            degrees.last() as nat
        } else {
            m
        }
    }
}

/// The degree of the constraint polynomial: the largest degree among the constraints.
pub fn constraint_degree(degrees: &Vec<usize>) -> (r: usize)
    ensures
        r == max_of(degrees@),
{
    let mut m: usize = 0;
    let mut i: usize = 0;
    proof {
        assert(degrees@.take(0) =~= Seq::<usize>::empty());
    }
    while i < degrees.len()
        invariant
            i <= degrees@.len(),
            m == max_of(degrees@.take(i as int)),
        decreases degrees@.len() - i,
    {
        proof {
            assert(degrees@.take(i + 1).drop_last() =~= degrees@.take(i as int));
        }
        if degrees[i] > m {
            m = degrees[i];
        }
        i = i + 1;
    }
    proof {
        assert(degrees@.take(degrees@.len() as int) =~= degrees@);
    }
    m
}

/// The sizes that a proof of a trace of height `2^log_degree` is built on.
pub struct StarkShape {
    /// `log2` of the trace height.
    pub log_degree: usize,
    /// `ceil(log2(constraint_degree - 1))`.
    pub log_quotient_degree: usize,
    /// How many chunks the quotient is split into: `2^log_quotient_degree`.
    pub quotient_degree: usize,
    /// The size of the quotient domain: `2^(log_degree + log_quotient_degree)`.
    pub quotient_size: usize,
}

/// The shape of a proof for a trace of height `trace_height` whose constraints have
/// degree at most `constraint_degree`.
pub fn stark_shape(trace_height: usize, constraint_degree: usize) -> (r: StarkShape)
    requires
        exists|e: nat| pow2(e) == trace_height,
        constraint_degree >= 1,
        trace_height * pow2(log2_ceil_of((constraint_degree - 1) as nat)) <= usize::MAX,
    ensures
        pow2(r.log_degree as nat) == trace_height,
        pow2(r.log_quotient_degree as nat) >= constraint_degree - 1,
        r.log_quotient_degree == 0 || pow2((r.log_quotient_degree - 1) as nat) < constraint_degree - 1,
        r.quotient_degree == pow2(r.log_quotient_degree as nat),
        r.quotient_size == pow2((r.log_degree + r.log_quotient_degree) as nat),
        r.quotient_size == trace_height * r.quotient_degree,
{
    let log_degree = log2_strict_usize(trace_height);
    let lq = log2_ceil_usize(constraint_degree - 1);
    proof {
        lemma_log2_ceil_unique((constraint_degree - 1) as nat, lq as nat);
        lemma_pow2_pos(lq as nat);
        lemma_pow2_adds(log_degree as nat, lq as nat);
        lemma_pow2_pos(log_degree as nat);
        assert(1 * pow2(lq as nat) <= trace_height * pow2(lq as nat)) by (nonlinear_arith)
            requires
                trace_height >= 1,
        ;
    }
    let qd = crate::dft::extended_height(1, lq);
    let qs = crate::dft::extended_height(trace_height, lq);
    StarkShape { log_degree, log_quotient_degree: lq, quotient_degree: qd, quotient_size: qs }
}

/// The rows the constraints read at point `i` of the quotient domain: row `i` and the row
/// one trace step later, `i + next_step`, wrapping around the domain.
pub fn quotient_row_pair(trace: &RowMajorMatrix<Felt>, i: usize, next_step: usize) -> (r: (Vec<Felt>, Vec<Felt>))
    requires
        trace.wf(),
        i < trace.height_spec(),
        next_step < trace.height_spec(),
    ensures
        r.0@ == trace.row_spec(i as int),
        r.1@ == trace.row_spec(((i + next_step) % (trace.height_spec() as int))),
{
    let h = trace.height();
    let j = if i >= h - next_step {
        i - (h - next_step)
    } else {
        i + next_step
    };
    proof {
        if i + next_step >= h {
            lemma_fundamental_div_mod_converse((i + next_step) as int, h as int, 1, j as int);
        } else {
            lemma_small_mod((i + next_step) as nat, h as nat);
        }
    }
    (trace.row(i), trace.row(j))
}


/// `ceil(log2(n))`: the least `k` with `2^k >= n`.
pub open spec fn log2_ceil_of(n: nat) -> nat {
    choose|k: nat| #[trigger] pow2(k) >= n && (k == 0 || pow2((k - 1) as nat) < n)
}

/// The least such `k` is unique.
pub proof fn lemma_log2_ceil_unique(n: nat, k: nat)
    requires
        pow2(k) >= n,
        k == 0 || pow2((k - 1) as nat) < n,
    ensures
        log2_ceil_of(n) == k,
{
    let j = log2_ceil_of(n);
    assert(pow2(j) >= n && (j == 0 || pow2((j - 1) as nat) < n));
    if j < k {
        if j < (k - 1) as nat {
            lemma_pow2_strictly_increases(j, (k - 1) as nat);
        }
    }
    if k < j {
        if k < (j - 1) as nat {
            lemma_pow2_strictly_increases(k, (j - 1) as nat);
        }
    }
}

/// The quotient domain, `2^(log_degree + lq)` points, fits in the two-adic subgroup and
/// its extension of the trace fits in memory.
pub proof fn lemma_quotient_domain_fits(h: nat, w: nat, ld: nat, lq: nat)
    requires
        pow2(ld) == h,
        w >= 1,
        two_adic_size(h * pow2(lq)),
        h * pow2(lq) * w <= usize::MAX,
    ensures
        two_adic_size(h * pow2(lq)),
        h * pow2(lq) * w <= usize::MAX,
        h * pow2(lq) <= usize::MAX,
        ld + lq <= TWO_ADICITY,
        pow2(ld + lq) == h * pow2(lq),
{
    lemma_pow2_adds(ld, lq);
    lemma_pow2_pos(lq);
    lemma_two_adic_size(h * pow2(lq));
    crate::dft::lemma_log2_of(h * pow2(lq), ld + lq);
    assert(h * pow2(lq) <= h * pow2(lq) * w) by (nonlinear_arith)
        requires
            w >= 1,
    ;
}

/// Two matrices with the same entries and width have the same columns and transforms.
pub proof fn lemma_same_matrix(a: RowMajorMatrix<Felt>, b: RowMajorMatrix<Felt>)
    requires
        a.values@ == b.values@,
        a.width == b.width,
    ensures
        a.height_spec() == b.height_spec(),
        entries_wf(a) == entries_wf(b),
        a.wf() == b.wf(),
        dft_input(a) == dft_input(b),
        forall|c: int| #[trigger] column(a, c) == column(b, c),
        forall|c: int| #[trigger] idft_column(a, c) == idft_column(b, c),
{
    assert forall|c: int| #[trigger] column(a, c) == column(b, c) by {
        assert(column(a, c) =~= column(b, c));
    }
    assert forall|c: int| #[trigger] idft_column(a, c) == idft_column(b, c) by {
        assert(column(a, c) == column(b, c));
        assert(idft_column(a, c) =~= idft_column(b, c));
    }
}

/// The quotient at point `i` of the quotient domain `g * K`, `K` of order `2^(ld + lq)`:
/// the constraint values `cs[i]` folded with `alpha`, divided by the trace subgroup's
/// vanishing polynomial at `g * k^i`.
pub open spec fn quotient_at(cs: Seq<Seq<int>>, alpha: int, ld: nat, lq: nat, i: int) -> int {
    f_mul(
        fold_alpha(cs[i], alpha),
        inv_mod(vanishing(coset_point(GENERATOR as int, two_adic_gen(ld + lq), i as nat), ld)),
    )
}

/// Chunk `k` of the quotient: the values at points `k, k + 2^lq, k + 2 * 2^lq, ...`, its
/// evaluations on the coset `g * k^k * H`.
pub open spec fn quotient_chunk(cs: Seq<Seq<int>>, alpha: int, ld: nat, lq: nat, k: int) -> Seq<Felt> {
    Seq::new(pow2(ld), |j: int| Felt { val: quotient_at(cs, alpha, ld, lq, j * pow2(lq) + k) as u32 })
}

/// The coefficients of the polynomial whose evaluations on the coset `s * H` are `chunk`.
pub open spec fn chunk_interpolant(chunk: Seq<Felt>, s: int) -> Seq<int> {
    Seq::new(chunk.len(), |j: int| (idft_vec(chunk)[j] * exp_mod(inv_mod(s), j as nat)) % p())
}

/// `opened` holds each quotient chunk's interpolant evaluated at `z`, where the quotient is
/// built from the constraint values `cs` and the challenge `alpha`.
pub open spec fn opens_quotient_at(opened: Seq<Felt>, cs: Seq<Seq<int>>, alpha: int, z: int, ld: nat, lq: nat) -> bool {
    &&& cs.len() == pow2(ld + lq)
    &&& opened.len() == pow2(lq)
    &&& forall|k: int|
        0 <= k < opened.len() ==> (#[trigger] opened[k]).val == poly_eval(
            chunk_interpolant(
                quotient_chunk(cs, alpha, ld, lq, k),
                coset_point(GENERATOR as int, two_adic_gen(ld + lq), k as nat),
            ),
            z,
        )
}

/// The opened values of a proof of `trace`: the trace at `z` and `z * h`, and every quotient
/// chunk at the same `z`, the quotient built from the constraint values `cs` with `alpha`.
pub open spec fn opens_at<C, P, W>(
    r: StarkProof<C, P, W>,
    trace: RowMajorMatrix<Felt>,
    z: int,
    alpha: int,
    cs: Seq<Seq<int>>,
    lq: nat,
) -> bool {
    &&& opens_trace_at(r.trace_local@, r.trace_next@, trace, z, r.degree_bits as nat)
    &&& opens_quotient_at(r.quotient_chunks@, cs, alpha, z, r.degree_bits as nat, lq)
}

/// Absorbing `local[k]` then `next[k]` for each `k` in turn.
pub open spec fn interleaved<C>(local: Seq<Felt>, next: Seq<Felt>) -> Seq<Event<C>>
    decreases local.len(),
{
    if local.len() == 0 || next.len() == 0 {
        Seq::empty()
    } else {
        interleaved(local.drop_last(), next.drop_last()) + seq![Event::Element(local.last()), Event::Element(next.last())]
    }
}

/// The transcript of a STARK proof up to its opening proof: absorb `log2` of the height,
/// the trace commitment and the public values; draw `alpha`; absorb the quotient
/// commitment; draw `zeta`; absorb the opened trace values (each column at `zeta`, then at
/// `zeta * h`) and the opened chunks; draw the batching challenge.
pub open spec fn stark_events<C, P, W>(
    r: StarkProof<C, P, W>,
    public_values: Seq<Felt>,
    alpha_raw: Felt,
    zeta_raw: Felt,
    batch_raw: Felt,
) -> Seq<Event<C>> {
    seq![Event::Element(Felt { val: (r.degree_bits as int % p()) as u32 }), Event::Commitment(r.trace_commit)]
        + element_events(canon(public_values)) + seq![
        Event::Sample(alpha_raw),
        Event::Commitment(r.quotient_commit),
        Event::Sample(zeta_raw),
    ] + interleaved(r.trace_local@, r.trace_next@) + element_events(r.quotient_chunks@) + seq![
        Event::Sample(batch_raw),
    ]
}

/// The claims the opening batches: the trace extension `ldes[0]` at `z` and `z * h` with the
/// opened trace values, and each quotient chunk's extension `ldes[k + 1]` (the chunk of the
/// quotient built from `cs` and `alpha`, interpolated on its coset and evaluated on the
/// commitment domain) at `z` with its opened value.
pub open spec fn deep_claims_ok<C, P, W>(
    ldes: Seq<RowMajorMatrix<Felt>>,
    points: Seq<Vec<Felt>>,
    values: Seq<Vec<Vec<Felt>>>,
    r: StarkProof<C, P, W>,
    trace: RowMajorMatrix<Felt>,
    log_blowup: nat,
    z: int,
    cs: Seq<Seq<int>>,
    alpha: int,
    lq: nat,
) -> bool {
    let zf = Felt { val: z as u32 };
    let ld = r.degree_bits as nat;
    let zn = Felt { val: f_mul(z, two_adic_gen(r.degree_bits as nat)) as u32 };
    &&& ldes.len() == r.quotient_chunks@.len() + 1
    &&& points.len() == ldes.len()
    &&& values.len() == ldes.len()
    &&& ldes[0].wf()
    &&& ldes[0].height_spec() == pow2(r.degree_bits as nat + log_blowup)
    &&& forall|i: int| 0 <= i < ldes[0].height_spec() ==> #[trigger] ldes[0].row_spec(i) == ext_row(trace, log_blowup, i)
    &&& points[0]@ == seq![zf, zn]
    &&& values[0]@.len() == 2
    &&& values[0]@[0]@ == r.trace_local@
    &&& values[0]@[1]@ == r.trace_next@
    &&& forall|k: int| 0 <= k < r.quotient_chunks@.len() ==> #[trigger] chunk_claim(points, values, r.quotient_chunks@, zf, k)
    &&& forall|k: int, i: int|
        0 <= k < r.quotient_chunks@.len() && 0 <= i < pow2(ld + log_blowup) ==> #[trigger] ldes[k + 1].row_spec(i)
            == chunk_ext_row(
            chunk_interpolant(quotient_chunk(cs, alpha, ld, lq, k), coset_point(GENERATOR as int, two_adic_gen(ld + lq), k as nat)),
            ld + log_blowup,
            i,
        )
}

/// Row `i` of a chunk's extension onto the commitment domain of `2^log_lde` points: the
/// polynomial with coefficients `coeffs` at `g * w^i`.
pub open spec fn chunk_ext_row(coeffs: Seq<int>, log_lde: nat, i: int) -> Seq<Felt> {
    seq![
        Felt {
            val: poly_eval(
                crate::dft::shift_powers(coeffs, GENERATOR as int),
                exp_mod(two_adic_gen(log_lde), i as nat),
            ) as u32,
        },
    ]
}

/// Padding coefficients with zeros leaves the shifted polynomial's values unchanged.
pub proof fn lemma_shifted_zeros(c: Seq<int>, n: nat, s: int, x: int)
    ensures
        poly_eval(crate::dft::shift_powers(c + Seq::new(n, |j: int| 0int), s), x) == poly_eval(
            crate::dft::shift_powers(c, s),
            x,
        ),
{
    let padded = crate::dft::shift_powers(c + Seq::new(n, |j: int| 0int), s);
    assert(padded =~= crate::dft::shift_powers(c, s) + Seq::new(n, |j: int| 0int));
    crate::dft::lemma_poly_eval_zeros(crate::dft::shift_powers(c, s), n, x);
}

/// Claim `c + 1` is a chunk opened at `zeta` with the value `opened[c]`.
pub open spec fn chunk_claim(points: Seq<Vec<Felt>>, values: Seq<Vec<Vec<Felt>>>, opened: Seq<Felt>, zeta: Felt, c: int) -> bool {
    points[c + 1]@ == seq![zeta] && values[c + 1]@.len() == 1 && values[c + 1]@[0]@ == seq![opened[c]]
}

/// The word FRI is run on: the batched quotient of the claims with `batch` over the
/// commitment domain, in bit-reversed order.
pub open spec fn deep_word(
    ldes: Seq<RowMajorMatrix<Felt>>,
    points: Seq<Vec<Felt>>,
    values: Seq<Vec<Vec<Felt>>>,
    log_lde: nat,
    batch: int,
) -> Seq<Felt> {
    crate::commit_phase::bit_reversed(
        Seq::new(
            pow2(log_lde),
            |i: int|
                Felt {
                    val: crate::opening::fold_point(
                        ldes,
                        points,
                        values,
                        i,
                        coset_point(GENERATOR as int, two_adic_gen(log_lde), i as nat),
                        batch,
                        ldes.len(),
                    ) as u32,
                },
        ),
        log_lde,
    )
}

/// `r` is what `prove` sends when the transcript went from `before` to `after`: the events
/// of `stark_events` with the draws `alpha_raw`, `zeta_raw`, `batch_raw`, then a FRI run on
/// one codeword of log length `log2(height) + log_blowup`; the openings are at the drawn
/// `zeta`, the quotient built with the drawn `alpha`.
pub open spec fn stark_run<C, P, W, A: Air>(
    r: StarkProof<C, P, W>,
    trace: RowMajorMatrix<Felt>,
    air: A,
    public_values: Seq<Felt>,
    lq: nat,
    before: Seq<Event<C>>,
    after: Seq<Event<C>>,
    config: FriConfig,
    alpha_raw: Felt,
    zeta_raw: Felt,
    batch_raw: Felt,
    fri_inputs: Seq<Codeword>,
) -> bool {
    &&& opens_at(
        r,
        trace,
        zeta_raw.val as int % p(),
        alpha_raw.val as int % p(),
        air_values(air, trace, public_values, lq),
        lq,
    )
    &&& fri_inputs.len() == 1
    &&& fri_inputs[0].log_word_len == r.degree_bits + config.log_blowup
    &&& exists|ldes: Seq<RowMajorMatrix<Felt>>, points: Seq<Vec<Felt>>, values: Seq<Vec<Vec<Felt>>>|
        #[trigger] deep_claims_ok(
            ldes,
            points,
            values,
            r,
            trace,
            config.log_blowup as nat,
            zeta_raw.val as int % p(),
            air_values(air, trace, public_values, lq),
            alpha_raw.val as int % p(),
            lq,
        )
            && fri_inputs[0].word@ == deep_word(
            ldes,
            points,
            values,
            (r.degree_bits + config.log_blowup) as nat,
            batch_raw.val as int % p(),
        )
    &&& exists|samples: Seq<Felt>, raws: Seq<usize>|
        #[trigger] fri_run(
            r.opening_proof,
            before + stark_events(r, public_values, alpha_raw, zeta_raw, batch_raw),
            after,
            config,
            fri_inputs,
            samples,
            raws,
        )
}

/// `local` and `next` are the trace's column polynomials evaluated at `z` and at the next
/// point `z * h`, where `h` generates the trace subgroup of order `2^bits`.
pub open spec fn opens_trace_at(
    local: Seq<Felt>,
    next: Seq<Felt>,
    trace: RowMajorMatrix<Felt>,
    z: int,
    bits: nat,
) -> bool {
    forall|c: int|
        0 <= c < trace.width ==> (#[trigger] local[c]).val == poly_eval(idft_column(trace, c), z)
            && next[c].val == poly_eval(idft_column(trace, c), f_mul(z, two_adic_gen(bits)))
}

/// The commitment domain, `2^(log_degree + log_blowup)` points, fits in the two-adic
/// subgroup and its extension of the trace fits in memory.
pub proof fn lemma_lde_domain(h: nat, w: nat, b: nat, ld: nat)
    requires
        pow2(ld) == h,
        w >= 1,
        two_adic_size(h * pow2(b)),
        h * pow2(b) * w <= usize::MAX,
    ensures
        h * pow2(b) <= usize::MAX,
        h <= h * pow2(b),
        ld + b <= TWO_ADICITY,
        pow2(ld + b) == h * pow2(b),
{
    lemma_pow2_adds(ld, b);
    lemma_pow2_pos(b);
    lemma_two_adic_size(h * pow2(b));
    crate::dft::lemma_log2_of(h * pow2(b), ld + b);
    assert(h * pow2(b) <= h * pow2(b) * w && h <= h * pow2(b)) by (nonlinear_arith)
        requires
            w >= 1,
            pow2(b) >= 1,
    ;
}

/// The FRI parameters suit a word of log length `log_lde`: each round folds by at least one
/// bit, and every round that is owed (the first always is) folds from a length at least
/// `log_folding_arity` bits above the blowup.
pub open spec fn fri_ok(config: FriConfig, log_lde: nat) -> bool {
    let a = config.log_folding_arity as nat;
    &&& 1 <= a
    &&& forall|r: nat|
        r <= log_lde && (r == 0 || log_at(log_lde, a, r) > config.log_blowup + config.log_max_final_poly_len)
            ==> #[trigger] log_at(log_lde, a, r) >= config.log_blowup + a
}

/// The constraints of a computation, evaluated at one point of the quotient domain.
pub trait Air {
    /// The constraint values at a point, in the order the constraints are emitted, given the
    /// trace's current and next rows there, the public values and the selectors.
    spec fn constraints(&self, local: Seq<Felt>, next: Seq<Felt>, public_values: Seq<Felt>, sels: Selectors) -> Seq<Felt>;

    /// The largest degree of any constraint, as a polynomial in the trace values.
    spec fn max_degree(&self) -> nat;

    /// The largest degree of any constraint.
    fn constraint_degree(&self) -> (r: usize)
        ensures
            r == self.max_degree(),
    ;

    /// Evaluates the constraints.
    fn eval(&self, local: &Vec<Felt>, next: &Vec<Felt>, public_values: &Vec<Felt>, sels: &Selectors) -> (r: Vec<Felt>)
        ensures
            r@ == self.constraints(local@, next@, public_values@, *sels),
    ;
}

/// `s` with every entry reduced to its canonical representative.
pub open spec fn canon(s: Seq<Felt>) -> Seq<Felt> {
    Seq::new(s.len(), |j: int| Felt { val: (s[j].val as int % p()) as u32 })
}

/// Entry `(i, c)` of the trace extended onto the coset `g * K`, `K` of order
/// `height * 2^lq`: column `c`'s polynomial at `g * k^i`.
pub open spec fn ext_entry(trace: RowMajorMatrix<Felt>, lq: nat, i: int, c: int) -> int {
    poly_eval(
        crate::dft::shift_powers(idft_column(trace, c), GENERATOR as int),
        exp_mod(two_adic_gen(log2_of(trace.height_spec()) + lq), i as nat),
    )
}

/// Row `i` of the trace extended onto the quotient domain.
pub open spec fn ext_row(trace: RowMajorMatrix<Felt>, lq: nat, i: int) -> Seq<Felt> {
    Seq::new(trace.width as nat, |c: int| Felt { val: ext_entry(trace, lq, i, c) as u32 })
}

/// The selectors of the subgroup of order `2^log_n` at `x`.
pub open spec fn selectors_of(x: int, log_n: nat) -> Selectors {
    let z = vanishing(x, log_n);
    let g_inv = inv_mod(two_adic_gen(log_n));
    Selectors {
        is_first_row: Felt { val: f_div(z, f_sub(x, 1)) as u32 },
        is_last_row: Felt { val: f_div(z, f_sub(x, g_inv)) as u32 },
        is_transition: Felt { val: f_sub(x, g_inv) as u32 },
        inv_vanishing: Felt { val: inv_mod(z) as u32 },
    }
}

/// The constraint values at every point `i` of the quotient domain, reduced: the AIR on the
/// extended trace's row `i` and the row one trace step later, with the selectors at
/// `g * k^i`.
pub open spec fn air_values<A: Air>(
    air: A,
    trace: RowMajorMatrix<Felt>,
    public_values: Seq<Felt>,
    lq: nat,
) -> Seq<Seq<int>> {
    let ld = log2_of(trace.height_spec());
    let n = pow2(ld + lq);
    Seq::new(
        n,
        |i: int|
            vals(
                canon(
                    air.constraints(
                        ext_row(trace, lq, i),
                        ext_row(trace, lq, (i + pow2(lq)) % (n as int)),
                        public_values,
                        selectors_of(coset_point(GENERATOR as int, two_adic_gen(ld + lq), i as nat), ld),
                    ),
                ),
            ),
    )
}

/// The opening of the committed extensions at one query: the trace row and each quotient
/// chunk's row at the queried position, with the authentication paths of both commitments.
pub struct InputOpening<P> {
    pub trace_row: Vec<Felt>,
    pub trace_path: P,
    pub quotient_rows: Vec<Vec<Felt>>,
    pub quotient_path: P,
}

/// What the prover sends: the two commitments, the trace opened at `zeta` and at the next
/// point `zeta * h`, each quotient chunk opened at `zeta`, and `log2` of the trace height.
pub struct StarkProof<C, P, W> {
    pub trace_commit: C,
    pub quotient_commit: C,
    pub trace_local: Vec<Felt>,
    pub trace_next: Vec<Felt>,
    pub quotient_chunks: Vec<Felt>,
    pub opening_proof: FriProof<C, P, W, InputOpening<P>>,
    pub degree_bits: usize,
}

/// `v` with every entry reduced to its canonical representative.
pub fn canonical_vec(v: &Vec<Felt>) -> (r: Vec<Felt>)
    ensures
        all_wf(r@),
        r@.len() == v@.len(),
        r@ == canon(v@),
        forall|j: int| 0 <= j < v@.len() && v@[j].wf() ==> #[trigger] r@[j] == v@[j],
{
    let mut r: Vec<Felt> = Vec::new();
    let mut j: usize = 0;
    while j < v.len()
        invariant
            j <= v@.len(),
            r@.len() == j,
            all_wf(r@),
            forall|k: int| 0 <= k < j && v@[k].wf() ==> #[trigger] r@[k] == v@[k],
            forall|k: int| 0 <= k < j ==> #[trigger] r@[k] == canon(v@)[k],
        decreases v@.len() - j,
    {
        proof {
            if v@[j as int].wf() {
                vstd::arithmetic::div_mod::lemma_small_mod(v@[j as int].val as nat, crate::field::p() as nat);
            }
        }
        r.push(Felt::from_u64(v[j].val as u64));
        j = j + 1;
    }
    proof {
        assert(r@ =~= canon(v@));
    }
    r
}

/// Evaluates every column of `coeffs`, read as coefficients, at `x`.
pub fn eval_columns(coeffs: &RowMajorMatrix<Felt>, x: Felt) -> (r: Vec<Felt>)
    requires
        coeffs.wf(),
        entries_wf(*coeffs),
        x.wf(),
    ensures
        r@.len() == coeffs.width,
        all_wf(r@),
        forall|c: int| 0 <= c < coeffs.width ==> (#[trigger] r@[c]).val == poly_eval(column(*coeffs, c), x.val as int),
{
    let mut r: Vec<Felt> = Vec::new();
    let mut c: usize = 0;
    while c < coeffs.width
        invariant
            coeffs.wf(),
            entries_wf(*coeffs),
            x.wf(),
            c <= coeffs.width,
            r@.len() == c,
            all_wf(r@),
            forall|k: int| 0 <= k < c ==> (#[trigger] r@[k]).val == poly_eval(column(*coeffs, k), x.val as int),
        decreases coeffs.width - c,
    {
        r.push(eval_column(coeffs, c, x));
        c = c + 1;
    }
    r
}

/// The trace can be proved with blowup `2^log_blowup` against constraints of degree
/// `constraint_degree`: its height is a power of two of at least 2, and both the
/// commitment domain and the quotient domain fit in the two-adic subgroup.
pub open spec fn stark_ok(trace: RowMajorMatrix<Felt>, log_blowup: nat, constraint_degree: nat) -> bool {
    &&& dft_input(trace)
    &&& trace.height_spec() >= 2
    &&& constraint_degree >= 1
    &&& two_adic_size(trace.height_spec() * pow2(log_blowup))
    &&& trace.height_spec() * pow2(log_blowup) * trace.width <= usize::MAX
    &&& two_adic_size(trace.height_spec() * pow2(log2_ceil_of((constraint_degree - 1) as nat)))
    &&& trace.height_spec() * pow2(log2_ceil_of((constraint_degree - 1) as nat)) * trace.width <= usize::MAX
}

/// Proves that `trace` satisfies `air`. The trace is extended onto the coset of the
/// subgroup `2^log_blowup` times larger and committed; the transcript absorbs `log2` of the
/// height, the commitment and the public values, and yields `alpha`. The constraints are
/// evaluated on the quotient domain, folded with `alpha` and divided by the vanishing
/// polynomial; the quotient is split into `2^ceil(log2(d - 1))` chunks (`d` the AIR's
/// constraint degree), which are extended, committed and absorbed; `zeta` is drawn, and the
/// trace is opened at `zeta` and `zeta * h`, each chunk at `zeta`. The opened values are
/// absorbed, a batching challenge is drawn, and FRI proves the batched quotient of all the
/// claims close to a low-degree word, each query opening the committed extensions too.
#[verifier::rlimit(100)]
pub fn prove<M: Mmcs, Ch: Challenger<M::Commitment>, D: TwoAdicSubgroupDft, A: Air>(
    fri_config: &FriConfig,
    mmcs: &M,
    dft: &D,
    air: &A,
    trace: RowMajorMatrix<Felt>,
    public_values: &Vec<Felt>,
    challenger: &mut Ch,
) -> (r: StarkProof<M::Commitment, M::Proof, Ch::Witness>)
    requires
        stark_ok(trace, fri_config.log_blowup as nat, air.max_degree()),
        fri_ok(*fri_config, log2_of(trace.height_spec()) + fri_config.log_blowup as nat),
    ensures
        r.opening_proof.final_poly@.len() <= pow2(fri_config.log_max_final_poly_len as nat),
        r.opening_proof.query_proofs@.len() == fri_config.num_queries,
        forall|q: int|
            0 <= q < r.opening_proof.query_proofs@.len() ==> {
                let qp = #[trigger] r.opening_proof.query_proofs@[q];
                let log_lde = r.degree_bits + fri_config.log_blowup;
                &&& qp.index < pow2(log_lde as nat)
                &&& qp.input_proof.trace_row@ == ext_row(
                    trace,
                    fri_config.log_blowup as nat,
                    crate::fri::rev_bits(qp.index as nat, log_lde as nat) as int,
                )
                &&& qp.input_proof.quotient_rows@.len() == pow2(log2_ceil_of((air.max_degree() - 1) as nat))
            },
        pow2(r.degree_bits as nat) == trace.height_spec(),
        r.trace_local@.len() == trace.width,
        r.trace_next@.len() == trace.width,
        r.quotient_chunks@.len() == pow2(log2_ceil_of((air.max_degree() - 1) as nat)),
        exists|alpha_raw: Felt, zeta_raw: Felt, batch_raw: Felt, fri_inputs: Seq<Codeword>|
            #[trigger] stark_run(
                r,
                trace,
                *air,
                public_values@,
                log2_ceil_of((air.max_degree() - 1) as nat),
                old(challenger).transcript(),
                final(challenger).transcript(),
                *fri_config,
                alpha_raw,
                zeta_raw,
                batch_raw,
                fri_inputs,
            ),
{
    let constraint_degree = air.constraint_degree();
    let ghost t0 = trace;
    let h = trace.height();
    proof {
        lemma_two_adic_size(h as nat);
    }
    proof {
        let hq = h * pow2(log2_ceil_of((constraint_degree - 1) as nat));
        let wd = t0.width as int;
        assert(hq <= hq * wd) by (nonlinear_arith)
            requires
                wd >= 1,
                hq >= 0,
        ;
    }
    let shape = stark_shape(h, constraint_degree);
    let log_degree = shape.log_degree;
    let shift = Felt { val: GENERATOR };

    // Commit to the trace on the commitment domain.
    let log_blowup = fri_config.log_blowup;
    let copied_t = copy_matrix(&trace);
    proof {
        lemma_same_matrix(copied_t, t0);
        crate::dft::lemma_log2_of(h as nat, log_degree as nat);
    }
    let trace_lde = dft.coset_lde_batch(copied_t, log_blowup, shift);
    let trace_lde_kept = copy_matrix(&trace_lde);
    let trace_rows = copy_matrix(&trace_lde);
    proof {
        lemma_same_matrix(trace_lde_kept, trace_lde);
        lemma_same_matrix(trace_rows, trace_lde);
        assert forall|i: int| 0 <= i < trace_rows.height_spec() implies #[trigger] trace_rows.row_spec(i) == ext_row(
            t0,
            log_blowup as nat,
            i,
        ) by {
            crate::fri::lemma_row_len(trace_rows, i);
            assert forall|c: int| 0 <= c < t0.width implies trace_rows.row_spec(i)[c] == ext_row(t0, log_blowup as nat, i)[c] by {
                crate::matrix::lemma_entry_index(trace_rows.values@.len() as int, trace_rows.width as int, i, c);
                vstd::arithmetic::mul::lemma_mul_is_distributive_add_other_way(trace_rows.width as int, i, 1);
                crate::matrix::lemma_row_in_bounds(trace_rows.values@.len() as int, trace_rows.width as int, i);
                assert(trace_rows.row_spec(i)[c] == trace_rows.values@[i * trace_rows.width + c]);
                assert(trace_rows.row_spec(i)[c] == trace_lde.at(i, c));
                assert(idft_column(copied_t, c) == idft_column(t0, c));
            }
            assert(trace_rows.row_spec(i) =~= ext_row(t0, log_blowup as nat, i));
        }
    }
    let mut trace_mats: Vec<RowMajorMatrix<Felt>> = Vec::new();
    trace_mats.push(trace_lde);
    let (trace_commit, trace_data) = mmcs.commit(trace_mats);
    let ghost t_start = challenger.transcript();
    let ld_elem = Felt::from_u64(log_degree as u64);
    challenger.observe_element(ld_elem);
    challenger.observe_commitment(&trace_commit);
    let ghost t_head = challenger.transcript();
    let mut i: usize = 0;
    while i < public_values.len()
        invariant
            i <= public_values@.len(),
            challenger.transcript() == t_head + element_events::<M::Commitment>(canon(public_values@).take(i as int)),
        decreases public_values@.len() - i,
    {
        challenger.observe_element(Felt::from_u64(public_values[i].val as u64));
        i = i + 1;
        proof {
            assert(element_events::<M::Commitment>(canon(public_values@).take(i as int)) =~= element_events::<M::Commitment>(canon(public_values@).take(i - 1)).push(Event::Element(canon(public_values@)[i - 1])));
        }
    }
    proof {
        assert(canon(public_values@).take(public_values@.len() as int) =~= canon(public_values@));
    }
    let alpha_raw = challenger.sample_element();
    let alpha = Felt::from_u64(alpha_raw.val as u64);
    let ghost t_alpha = challenger.transcript();

    // Evaluate the trace on the quotient domain and fold the constraints there.
    proof {
        lemma_log2_ceil_unique((constraint_degree - 1) as nat, shape.log_quotient_degree as nat);
        lemma_quotient_domain_fits(h as nat, t0.width as nat, log_degree as nat, shape.log_quotient_degree as nat);
    }
    let copied_q = copy_matrix(&trace);
    proof {
        lemma_same_matrix(copied_q, t0);
        crate::dft::lemma_log2_of(h as nat, log_degree as nat);
    }
    let quotient_lde = dft.coset_lde_batch(copied_q, shape.log_quotient_degree, shift);
    proof {
        assert forall|i: int| 0 <= i < shape.quotient_size implies #[trigger] quotient_lde.row_spec(i) == ext_row(
            t0,
            shape.log_quotient_degree as nat,
            i,
        ) by {
            crate::fri::lemma_row_len(quotient_lde, i);
            assert forall|c: int| 0 <= c < t0.width implies quotient_lde.row_spec(i)[c] == ext_row(
                t0,
                shape.log_quotient_degree as nat,
                i,
            )[c] by {
                crate::matrix::lemma_entry_index(quotient_lde.values@.len() as int, quotient_lde.width as int, i, c);
                vstd::arithmetic::mul::lemma_mul_is_distributive_add_other_way(quotient_lde.width as int, i, 1);
                crate::matrix::lemma_row_in_bounds(quotient_lde.values@.len() as int, quotient_lde.width as int, i);
                vstd::arithmetic::mul::lemma_mul_is_commutative(quotient_lde.width as int, i);
                assert(quotient_lde.row_spec(i)[c] == quotient_lde.values@[i * quotient_lde.width + c]);
                assert(quotient_lde.row_spec(i)[c] == quotient_lde.at(i, c));
                assert(idft_column(copied_q, c) == idft_column(t0, c));
            }
            assert(quotient_lde.row_spec(i) =~= ext_row(t0, shape.log_quotient_degree as nat, i));
        }
    }
    proof {
        lemma_pow2_pos(shape.log_quotient_degree as nat);
        let qd = shape.quotient_degree as int;
        assert(qd < (h as int) * qd) by (nonlinear_arith)
            requires
                h >= 2,
                qd >= 1,
        ;
    }
    let qgen = two_adic_generator(log_degree + shape.log_quotient_degree);
    let ghost qg = two_adic_gen((log_degree + shape.log_quotient_degree) as nat);
    let ghost gen = GENERATOR as int;
    let mut evals: Vec<Vec<Felt>> = Vec::new();
    let mut inv_van: Vec<Felt> = Vec::new();
    let mut x = shift;
    let mut j: usize = 0;
    while j < shape.quotient_size
        invariant
            quotient_lde.wf(),
            quotient_lde.height_spec() == shape.quotient_size,
            shape.quotient_degree < shape.quotient_size,
            log_degree <= TWO_ADICITY,
            x.wf(),
            alpha.wf(),
            qgen.wf(),
            qgen.val == qg,
            qg == two_adic_gen((log_degree + shape.log_quotient_degree) as nat),
            gen == GENERATOR as int,
            x.val == coset_point(gen, qg, j as nat),
            j <= shape.quotient_size,
            evals@.len() == j,
            inv_van@.len() == j,
            all_wf(inv_van@),
            forall|i: int| 0 <= i < j ==> all_wf((#[trigger] evals@[i])@),
            forall|i: int|
                0 <= i < shape.quotient_size ==> #[trigger] quotient_lde.row_spec(i) == ext_row(
                    t0,
                    shape.log_quotient_degree as nat,
                    i,
                ),
            pow2(log_degree as nat) == h,
            shape.quotient_degree == pow2(shape.log_quotient_degree as nat),
            shape.quotient_size == pow2((log_degree + shape.log_quotient_degree) as nat),
            log2_of(t0.height_spec()) == log_degree,
            forall|i: int|
                0 <= i < j ==> vals((#[trigger] evals@[i])@) == air_values(
                    *air,
                    t0,
                    public_values@,
                    shape.log_quotient_degree as nat,
                )[i],
            forall|i: int|
                0 <= i < j ==> (#[trigger] inv_van@[i]).val == inv_mod(
                    vanishing(coset_point(gen, qg, i as nat), log_degree as nat),
                ),
        decreases shape.quotient_size - j,
    {
        let sels = selectors_at(x, log_degree);
        let (local, next) = quotient_row_pair(&quotient_lde, j, shape.quotient_degree);
        let ev = canonical_vec(&air.eval(&local, &next, public_values, &sels));
        proof {
            let ld = log_degree as nat;
            let sx = selectors_of(x.val as int, ld);
            assert(sels.is_first_row == sx.is_first_row);
            assert(sels.is_last_row == sx.is_last_row);
            assert(sels.is_transition == sx.is_transition);
            assert(sels.inv_vanishing == sx.inv_vanishing);
            assert(sels == sx);
            let lq = shape.log_quotient_degree as nat;
            let n = pow2(ld + lq);
            assert(local@ == ext_row(t0, lq, j as int));
            let jn = (j + shape.quotient_degree) % (shape.quotient_size as int);
            assert(0 <= jn < shape.quotient_size);
            assert(next@ == quotient_lde.row_spec(jn));
            assert(next@ == ext_row(t0, lq, jn));
            assert(n == shape.quotient_size);
            assert(jn == (j + pow2(lq)) % (n as int));
            assert(x.val == coset_point(gen, qg, j as nat));
            assert(qg == two_adic_gen(ld + lq));
            assert(gen == GENERATOR as int);
            assert(vals(ev@) == air_values(*air, t0, public_values@, lq)[j as int]);
        }
        evals.push(ev);
        inv_van.push(sels.inv_vanishing);
        x = x.mul(qgen);
        j = j + 1;
    }
    let quotient = quotient_values(&evals, alpha, &inv_van);
    let ghost cs = Seq::new(evals@.len(), |i: int| vals(evals@[i]@));
    proof {
        assert(cs =~= air_values(*air, t0, public_values@, shape.log_quotient_degree as nat));
    }
    let ghost ld = log_degree as nat;
    let ghost lq = shape.log_quotient_degree as nat;
    proof {
        assert forall|i: int| 0 <= i < quotient@.len() implies (#[trigger] quotient@[i]).val == quotient_at(
            cs,
            alpha.val as int,
            ld,
            lq,
            i,
        ) by {
            assert(cs[i] == vals(evals@[i]@));
        }
    }

    // Split the quotient into chunks of trace height and commit to them.
    proof {
        vstd::arithmetic::div_mod::lemma_mod_multiples_basic(h as int, shape.quotient_degree as int);
        vstd::arithmetic::div_mod::lemma_div_multiples_vanish(h as int, shape.quotient_degree as int);
        vstd::arithmetic::mul::lemma_mul_is_commutative(h as int, shape.quotient_degree as int);
    }
    let chunks = split_evals(&quotient, shape.quotient_degree);

    // Each chunk holds evaluations on the coset `shift * qgen^k * H`: interpolate it and
    // extend it onto the commitment domain, then commit to the extensions.
    proof {
        lemma_lde_domain(h as nat, t0.width as nat, log_blowup as nat, log_degree as nat);
    }
    let lde_h = crate::dft::extended_height(h, log_blowup);
    let mut chunk_coeffs: Vec<Vec<Felt>> = Vec::new();
    let mut chunk_ldes: Vec<RowMajorMatrix<Felt>> = Vec::new();
    let mut chunk_mats: Vec<RowMajorMatrix<Felt>> = Vec::new();
    let mut chunk_shift = shift;
    let mut k: usize = 0;
    while k < chunks.len()
        invariant
            k <= chunks@.len(),
            chunks@.len() == shape.quotient_degree,
            forall|c: int| 0 <= c < chunks@.len() ==> (#[trigger] chunks@[c])@.len() == h,
            forall|c: int| 0 <= c < chunks@.len() ==> all_wf((#[trigger] chunks@[c])@),
            two_adic_size(h as nat),
            two_adic_size(lde_h as nat),
            lde_h == h * pow2(log_blowup as nat),
            lde_h * 1 <= usize::MAX,
            h <= lde_h,
            chunk_shift.wf(),
            shift.wf(),
            qgen.wf(),
            chunk_coeffs@.len() == k,
            chunk_ldes@.len() == k,
            forall|c: int| 0 <= c < k ==> all_wf((#[trigger] chunk_coeffs@[c])@),
            qgen.val == qg,
            chunk_shift.val == coset_point(gen, qg, k as nat),
            forall|c: int|
                0 <= c < k ==> ints((#[trigger] chunk_coeffs@[c])@) =~= chunk_interpolant(
                    chunks@[c]@,
                    coset_point(gen, qg, c as nat),
                ),
            forall|c: int| 0 <= c < k ==> (#[trigger] chunk_ldes@[c]).wf() && chunk_ldes@[c].height_spec() == lde_h
                && entries_wf(chunk_ldes@[c]) && chunk_ldes@[c].width == 1,
            log_degree + log_blowup <= TWO_ADICITY,
            pow2((log_degree + log_blowup) as nat) == lde_h,
            shift.val == GENERATOR,
            forall|c: int, i: int|
                0 <= c < k && 0 <= i < lde_h ==> #[trigger] chunk_ldes@[c].row_spec(i) == chunk_ext_row(
                    chunk_interpolant(chunks@[c]@, coset_point(gen, qg, c as nat)),
                    (log_degree + log_blowup) as nat,
                    i,
                ),
        decreases chunks@.len() - k,
    {
        let coeffs_k = dft.coset_idft(crate::commit_phase::copy_word(&chunks[k]), chunk_shift);
        proof {
            lemma_two_adic_size(h as nat);
            assert(ints(coeffs_k@) =~= chunk_interpolant(chunks@[k as int]@, coset_point(gen, qg, k as nat)));
        }
        let mut padded = RowMajorMatrix::new_col(crate::commit_phase::copy_word(&coeffs_k));
        crate::dft::pad_rows(&mut padded, lde_h);
        let ghost padded_g = padded;
        let lde_k = dft.coset_dft_batch(padded, shift);
        let kept = copy_matrix(&lde_k);
        proof {
            lemma_same_matrix(kept, lde_k);
            let coeffs = chunk_interpolant(chunks@[k as int]@, coset_point(gen, qg, k as nat));
            let nz = (lde_h - h) as nat;
            assert(column(padded_g, 0) =~= coeffs + Seq::new(nz, |j: int| 0int)) by {
                assert forall|j: int| 0 <= j < lde_h implies column(padded_g, 0)[j] == (coeffs + Seq::new(nz, |j: int| 0int))[j] by {
                    assert(padded_g.at(j, 0) == padded_g.values@[j * 1 + 0]);
                }
            }
            crate::dft::lemma_log2_of(lde_h as nat, (log_degree + log_blowup) as nat);
            assert forall|i: int| 0 <= i < lde_h implies #[trigger] kept.row_spec(i) == chunk_ext_row(
                coeffs,
                (log_degree + log_blowup) as nat,
                i,
            ) by {
                let x = exp_mod(two_adic_gen((log_degree + log_blowup) as nat), i as nat);
                lemma_shifted_zeros(coeffs, nz, GENERATOR as int, x);
                assert(crate::dft::height_gen(padded_g) == two_adic_gen((log_degree + log_blowup) as nat));
                assert(lde_k.at(i, 0).val == poly_eval(crate::dft::shift_powers(column(padded_g, 0), GENERATOR as int), x));
                assert(lde_k.at(i, 0).val == poly_eval(crate::dft::shift_powers(coeffs, GENERATOR as int), x));
                assert(lde_k.at(i, 0).wf());
                assert(lde_k.at(i, 0) == lde_k.values@[i * 1 + 0]);
                assert(kept.row_spec(i) =~= seq![lde_k.at(i, 0)]);
            }
        }
        chunk_ldes.push(kept);
        chunk_mats.push(lde_k);
        chunk_coeffs.push(coeffs_k);
        chunk_shift = chunk_shift.mul(qgen);
        k = k + 1;
    }
    let (quotient_commit, quotient_data) = mmcs.commit(chunk_mats);
    proof {
        assert(challenger.transcript() == t_alpha);
    }
    challenger.observe_commitment(&quotient_commit);

    // Open the trace at zeta and zeta * h.
    let zeta_raw = challenger.sample_element();
    let zeta = Felt::from_u64(zeta_raw.val as u64);
    let ghost t_zeta = challenger.transcript();
    let hgen = two_adic_generator(log_degree);
    let zeta_next = zeta.mul(hgen);
    let copied = copy_matrix(&trace);
    proof {
        lemma_same_matrix(copied, t0);
    }
    let coeffs = dft.idft_batch(copied);
    proof {
        assert forall|c: int| 0 <= c < t0.width implies #[trigger] column(coeffs, c) =~= idft_column(t0, c) by {
            assert(idft_column(copied, c) == idft_column(t0, c));
        }
    }
    let trace_local = eval_columns(&coeffs, zeta);
    let trace_next = eval_columns(&coeffs, zeta_next);

    // Open each chunk at zeta.
    let mut opened_chunks: Vec<Felt> = Vec::new();
    let mut k: usize = 0;
    while k < chunk_coeffs.len()
        invariant
            k <= chunk_coeffs@.len(),
            forall|c: int| 0 <= c < chunk_coeffs@.len() ==> all_wf((#[trigger] chunk_coeffs@[c])@),
            zeta.wf(),
            opened_chunks@.len() == k,
            all_wf(opened_chunks@),
            forall|c: int| 0 <= c < k ==> (#[trigger] opened_chunks@[c]).val == poly_eval(ints(chunk_coeffs@[c]@), zeta.val as int),
        decreases chunk_coeffs@.len() - k,
    {
        let m = RowMajorMatrix::new_col(crate::commit_phase::copy_word(&chunk_coeffs[k]));
        proof {
            assert(column(m, 0) =~= ints(chunk_coeffs@[k as int]@)) by {
                assert forall|j: int| 0 <= j < m.height_spec() implies column(m, 0)[j] == ints(chunk_coeffs@[k as int]@)[j] by {
                    assert(m.at(j, 0) == m.values@[j * 1 + 0]);
                }
            }
        }
        opened_chunks.push(eval_column(&m, 0, zeta));
        k = k + 1;
    }

    // The opened values join the transcript; a challenge batches every claim into one
    // quotient, whose closeness to a low-degree word FRI proves.
    let mut k: usize = 0;
    while k < trace_local.len()
        invariant
            k <= trace_local@.len(),
            trace_next@.len() == trace_local@.len(),
            challenger.transcript() == t_zeta + interleaved::<M::Commitment>(trace_local@.take(k as int), trace_next@.take(k as int)),
        decreases trace_local@.len() - k,
    {
        challenger.observe_element(trace_local[k]);
        challenger.observe_element(trace_next[k]);
        k = k + 1;
        proof {
            assert(trace_local@.take(k as int).drop_last() =~= trace_local@.take(k - 1));
            assert(trace_next@.take(k as int).drop_last() =~= trace_next@.take(k - 1));
        }
    }
    proof {
        assert(trace_local@.take(trace_local@.len() as int) =~= trace_local@);
        assert(trace_next@.take(trace_local@.len() as int) =~= trace_next@);
    }
    let ghost t_opened = challenger.transcript();
    let mut k: usize = 0;
    while k < opened_chunks.len()
        invariant
            k <= opened_chunks@.len(),
            challenger.transcript() == t_opened + element_events::<M::Commitment>(opened_chunks@.take(k as int)),
        decreases opened_chunks@.len() - k,
    {
        challenger.observe_element(opened_chunks[k]);
        k = k + 1;
        proof {
            assert(element_events::<M::Commitment>(opened_chunks@.take(k as int)) =~= element_events::<M::Commitment>(
                opened_chunks@.take(k - 1),
            ).push(Event::Element(opened_chunks@[k - 1])));
        }
    }
    proof {
        assert(opened_chunks@.take(opened_chunks@.len() as int) =~= opened_chunks@);
    }
    let batch_raw = challenger.sample_element();
    let batch = Felt::from_u64(batch_raw.val as u64);
    let ghost t_mid = challenger.transcript();
    let mut ldes: Vec<RowMajorMatrix<Felt>> = Vec::new();
    let mut points: Vec<Vec<Felt>> = Vec::new();
    let mut values: Vec<Vec<Vec<Felt>>> = Vec::new();
    let ghost trace_lde_kept_g = trace_lde_kept;
    ldes.push(trace_lde_kept);
    points.push(vec![zeta, zeta_next]);
    values.push(vec![copy_word(&trace_local), copy_word(&trace_next)]);
    let mut k: usize = 0;
    while k < chunk_ldes.len()
        invariant
            k <= chunk_ldes@.len(),
            forall|c: int| 0 <= c < chunk_ldes@.len() ==> (#[trigger] chunk_ldes@[c]).wf() && chunk_ldes@[c].height_spec() == lde_h
                && entries_wf(chunk_ldes@[c]) && chunk_ldes@[c].width == 1,
            all_wf(opened_chunks@),
            zeta.wf(),
            opened_chunks@.len() == chunk_ldes@.len(),
            ldes@.len() == k + 1,
            points@.len() == k + 1,
            values@.len() == k + 1,
            claims_ok(ldes@, points@, values@, lde_h as nat),
            ldes@[0] == trace_lde_kept_g,
            points@[0]@ == seq![zeta, zeta_next],
            values@[0]@.len() == 2,
            values@[0]@[0]@ == trace_local@,
            values@[0]@[1]@ == trace_next@,
            forall|c: int| 0 <= c < k ==> #[trigger] chunk_claim(points@, values@, opened_chunks@, zeta, c),
            forall|c: int, i: int|
                0 <= c < chunk_ldes@.len() && 0 <= i < lde_h ==> #[trigger] chunk_ldes@[c].row_spec(i) == chunk_ext_row(
                    chunk_interpolant(chunks@[c]@, coset_point(gen, qg, c as nat)),
                    (log_degree + log_blowup) as nat,
                    i,
                ),
            forall|c: int, i: int|
                0 <= c < k && 0 <= i < lde_h ==> #[trigger] ldes@[c + 1].row_spec(i) == chunk_ext_row(
                    chunk_interpolant(chunks@[c]@, coset_point(gen, qg, c as nat)),
                    (log_degree + log_blowup) as nat,
                    i,
                ),
        decreases chunk_ldes@.len() - k,
    {
        let kept = copy_matrix(&chunk_ldes[k]);
        proof {
            lemma_same_matrix(kept, chunk_ldes@[k as int]);
        }
        let ghost old_points = points@;
        let ghost old_values = values@;
        let ghost old_ldes = ldes@;
        ldes.push(kept);
        points.push(vec![zeta]);
        values.push(vec![vec![opened_chunks[k]]]);
        proof {
            assert forall|c: int, i: int| 0 <= c < k + 1 && 0 <= i < lde_h implies #[trigger] ldes@[c + 1].row_spec(i) == chunk_ext_row(
                chunk_interpolant(chunks@[c]@, coset_point(gen, qg, c as nat)),
                (log_degree + log_blowup) as nat,
                i,
            ) by {
                if c < k {
                    assert(ldes@[c + 1] == old_ldes[c + 1]);
                } else {
                    assert(ldes@[c + 1].row_spec(i) == chunk_ldes@[c].row_spec(i));
                }
            }
            assert forall|c: int| 0 <= c < k + 1 implies #[trigger] chunk_claim(points@, values@, opened_chunks@, zeta, c) by {
                if c < k {
                    assert(points@[c + 1] == old_points[c + 1]);
                    assert(values@[c + 1] == old_values[c + 1]);
                    assert(chunk_claim(old_points, old_values, opened_chunks@, zeta, c));
                } else {
                    assert(c + 1 == old_points.len());
                    assert(ldes@[c + 1] == kept);
                    assert(points@[c + 1]@ =~= seq![zeta]);
                    assert(values@[c + 1]@.len() == 1);
                    assert(values@[c + 1]@[0]@ =~= seq![opened_chunks@[c]]);
                }
            }
        }
        k = k + 1;
    }
    proof {
        lemma_lde_domain(h as nat, t0.width as nat, log_blowup as nat, log_degree as nat);
    }
    let log_lde = log_degree + log_blowup;
    let deep = deep_quotient(&ldes, &points, &values, shift, log_lde, batch);
    let word = crate::commit_phase::reverse_slice_index_bits(&deep, log_lde);
    proof {
        assert forall|j: int| 0 <= j < word@.len() implies (#[trigger] word@[j]).wf() by {
            crate::fri::lemma_rev_bits_bound(j as nat, log_lde as nat);
        }
    }
    let ghost word_g = word@;
    let ghost deep_g = deep@;
    let mut inputs: Vec<Codeword> = Vec::new();
    inputs.push(Codeword { log_word_len: log_lde, word });
    let tdata = &trace_data;
    let qdata = &quotient_data;
    let trows = &trace_rows;
    let crows = &chunk_ldes;
    let open_input = |index: usize| -> (o: InputOpening<M::Proof>)
        requires
            index < pow2(log_lde as nat),
            log_lde <= TWO_ADICITY,
            trows.wf(),
            trows.height_spec() == pow2(log_lde as nat),
            forall|c: int|
                0 <= c < crows@.len() ==> (#[trigger] crows@[c]).wf() && crows@[c].height_spec() == pow2(
                    log_lde as nat,
                ),
        ensures
            o.trace_row@ == trows.row_spec(crate::fri::rev_bits(index as nat, log_lde as nat) as int),
            o.quotient_rows@.len() == crows@.len(),
            forall|c: int|
                0 <= c < crows@.len() ==> (#[trigger] o.quotient_rows@[c])@ == crows@[c].row_spec(
                    crate::fri::rev_bits(index as nat, log_lde as nat) as int,
                ),
        {
            let row = crate::fri::reverse_bits_len(index, log_lde);
            let trace_row = trows.row(row);
            let mut quotient_rows: Vec<Vec<Felt>> = Vec::new();
            let mut c: usize = 0;
            while c < crows.len()
                invariant
                    c <= crows@.len(),
                    row < pow2(log_lde as nat),
                    row == crate::fri::rev_bits(index as nat, log_lde as nat),
                    forall|c2: int|
                        0 <= c2 < crows@.len() ==> (#[trigger] crows@[c2]).wf() && crows@[c2].height_spec()
                            == pow2(log_lde as nat),
                    quotient_rows@.len() == c,
                    forall|c2: int| 0 <= c2 < c ==> (#[trigger] quotient_rows@[c2])@ == crows@[c2].row_spec(row as int),
                decreases crows@.len() - c,
            {
                quotient_rows.push(crows[c].row(row));
                c = c + 1;
            }
            InputOpening {
                trace_row,
                trace_path: mmcs.open_path(row, tdata),
                quotient_rows,
                quotient_path: mmcs.open_path(row, qdata),
            }
        };
    proof {
        let ins = inputs@;
        assert(first_log(ins) == log_lde);
        assert(log_at(log_lde as nat, fri_config.log_folding_arity as nat, 0) >= fri_config.log_blowup + fri_config.log_folding_arity);
        assert forall|r: nat|
            r <= first_log(ins) && (r == 0 || !stops_at(*fri_config, ins, r)) implies #[trigger] log_at(
                first_log(ins),
                fri_config.log_folding_arity as nat,
                r,
            ) >= fri_config.log_blowup + fri_config.log_folding_arity by {
            if r >= 1 {
                lemma_single_input_rounds(*fri_config, ins, r);
            }
        }
        assert(rounds_fit(*fri_config, ins));
    }
    let ghost fri_ins = inputs@;
    proof {
        assert(challenger.transcript() == t_mid);
    }
    let opening_proof = crate::fri_prover::prove(fri_config, mmcs, dft, inputs, challenger, open_input);
    let ghost t_end = challenger.transcript();
    proof {
        assert(exists|samples: Seq<Felt>, raws: Seq<usize>|
            #[trigger] fri_run(opening_proof, t_mid, t_end, *fri_config, fri_ins, samples, raws));
    }

    proof {
        assert forall|q: int| 0 <= q < opening_proof.query_proofs@.len() implies {
            let qp = #[trigger] opening_proof.query_proofs@[q];
            &&& qp.input_proof.trace_row@ == ext_row(
                t0,
                log_blowup as nat,
                crate::fri::rev_bits(qp.index as nat, log_lde as nat) as int,
            )
        } by {
            let qp = opening_proof.query_proofs@[q];
            crate::fri::lemma_rev_bits_bound(qp.index as nat, log_lde as nat);
        }
    }
    proof {
        lemma_log2_ceil_unique((constraint_degree - 1) as nat, shape.log_quotient_degree as nat);
        assert(opens_trace_at(trace_local@, trace_next@, t0, zeta.val as int, log_degree as nat));
        assert(t0 == trace);
    }
    let r = StarkProof {
        trace_commit,
        quotient_commit,
        trace_local,
        trace_next,
        quotient_chunks: opened_chunks,
        opening_proof,
        degree_bits: log_degree,
    };
    proof {
        assert(opens_trace_at(r.trace_local@, r.trace_next@, trace, zeta.val as int, r.degree_bits as nat));
        let qd = shape.quotient_degree as int;
        assert forall|k: int| 0 <= k < qd implies #[trigger] chunks@[k]@ =~= quotient_chunk(cs, alpha.val as int, ld, lq, k) by {
            assert forall|j: int| 0 <= j < h implies chunks@[k]@[j] == quotient_chunk(cs, alpha.val as int, ld, lq, k)[j] by {
                assert(j * qd + k < (h as int) * qd) by (nonlinear_arith)
                    requires
                        0 <= j < h,
                        0 <= k < qd,
                ;
                assert(chunks@[k]@[j] == quotient@[j * qd + k]);
            }
        }
        assert forall|k: int| 0 <= k < r.quotient_chunks@.len() implies (#[trigger] r.quotient_chunks@[k]).val == poly_eval(
            chunk_interpolant(quotient_chunk(cs, alpha.val as int, ld, lq, k), coset_point(GENERATOR as int, two_adic_gen(ld + lq), k as nat)),
            zeta.val as int,
        ) by {
            assert(ints(chunk_coeffs@[k]@) =~= chunk_interpolant(chunks@[k]@, coset_point(gen, qg, k as nat)));
        }
        assert(opens_quotient_at(r.quotient_chunks@, cs, alpha.val as int, zeta.val as int, ld, lq));
        assert(opens_at(r, trace, zeta.val as int, alpha.val as int, cs, lq));
        lemma_log2_ceil_unique((constraint_degree - 1) as nat, shape.log_quotient_degree as nat);
        assert(cs == air_values(*air, trace, public_values@, log2_ceil_of((constraint_degree - 1) as nat)));
        assert(zeta.val == zeta_raw.val as int % p());
        assert(alpha.val == alpha_raw.val as int % p());
        let ev = stark_events(r, public_values@, alpha_raw, zeta_raw, batch_raw);
        assert(ld_elem == Felt { val: (r.degree_bits as int % p()) as u32 });
        assert(t_start == old(challenger).transcript());
        assert(t_mid =~= t_start + ev);
        assert(fri_ins.len() == 1);
        assert(r.opening_proof == opening_proof);
        let lb = log_blowup as nat;
        let zf = Felt { val: (zeta_raw.val as int % p()) as u32 };
        assert(zf == zeta);
        assert(Felt { val: f_mul(zeta_raw.val as int % p(), two_adic_gen(r.degree_bits as nat)) as u32 } == zeta_next);
        assert(ldes@[0].values@ == trace_rows.values@);
        assert forall|i: int| 0 <= i < ldes@[0].height_spec() implies #[trigger] ldes@[0].row_spec(i) == ext_row(trace, lb, i) by {
            assert(ldes@[0].row_spec(i) == trace_rows.row_spec(i));
        }
        let csa = air_values(*air, trace, public_values@, shape.log_quotient_degree as nat);
        assert forall|k: int, i: int|
            0 <= k < r.quotient_chunks@.len() && 0 <= i < pow2(r.degree_bits as nat + lb) implies #[trigger] ldes@[k + 1].row_spec(i)
                == chunk_ext_row(
                chunk_interpolant(
                    quotient_chunk(csa, alpha_raw.val as int % p(), r.degree_bits as nat, shape.log_quotient_degree as nat, k),
                    coset_point(GENERATOR as int, two_adic_gen(r.degree_bits as nat + shape.log_quotient_degree as nat), k as nat),
                ),
                r.degree_bits as nat + lb,
                i,
            ) by {
            assert(chunks@[k]@ =~= quotient_chunk(cs, alpha.val as int, ld, lq, k));
        }
        assert(deep_claims_ok(
            ldes@,
            points@,
            values@,
            r,
            trace,
            lb,
            zeta_raw.val as int % p(),
            air_values(*air, trace, public_values@, log2_ceil_of((air.max_degree() - 1) as nat)),
            alpha_raw.val as int % p(),
            log2_ceil_of((air.max_degree() - 1) as nat),
        ));
        assert(deep_g =~= Seq::new(
            pow2(log_lde as nat),
            |i: int|
                Felt {
                    val: crate::opening::fold_point(
                        ldes@,
                        points@,
                        values@,
                        i,
                        coset_point(GENERATOR as int, two_adic_gen(log_lde as nat), i as nat),
                        batch_raw.val as int % p(),
                        ldes@.len(),
                    ) as u32,
                },
        ));
        assert(fri_ins[0].word@ == deep_word(ldes@, points@, values@, log_lde as nat, batch_raw.val as int % p()));
        assert(old(challenger).transcript() + ev == t_mid);
        assert(stark_run(
            r,
            trace,
            *air,
            public_values@,
            log2_ceil_of((constraint_degree - 1) as nat),
            old(challenger).transcript(),
            challenger.transcript(),
            *fri_config,
            alpha_raw,
            zeta_raw,
            batch_raw,
            fri_ins,
        ));
    }
    r
}

} // verus!
