use crate::field::{exp_mod, inv_mod, p, two_adic_gen, two_adic_generator, Felt, TWO_ADICITY};
use crate::fri::{f_add, f_div, f_mul, f_sub};
use vstd::arithmetic::div_mod::*;
use vstd::arithmetic::mul::*;
use vstd::arithmetic::power::*;
use vstd::arithmetic::power2::*;
use vstd::prelude::*;

verus! {

/// The constraints folded with `alpha` in emission order: `a <- a * alpha + c_k`, from `a = 0`.
pub open spec fn fold_alpha(constraints: Seq<int>, alpha: int) -> int
    decreases constraints.len(),
{
    if constraints.len() == 0 {
        0
    } else {
        f_add(f_mul(fold_alpha(constraints.drop_last(), alpha), alpha), constraints.last())
    }
}

/// `sum_k alpha^(K-1-k) * c_k mod p`, the same combination written as a sum.
pub open spec fn alpha_sum(constraints: Seq<int>, alpha: int) -> int
    decreases constraints.len(),
{
    if constraints.len() == 0 {
        0
    } else {
        f_add(
            f_mul(exp_mod(alpha, (constraints.len() - 1) as nat), constraints[0]),
            alpha_sum(constraints.drop_first(), alpha),
        )
    }
}

/// Appending a constraint to the weighted sum multiplies the sum by `alpha` and adds it.
pub proof fn lemma_alpha_sum_push(c: Seq<int>, x: int, alpha: int)
    ensures
        alpha_sum(c.push(x), alpha) == f_add(f_mul(alpha_sum(c, alpha), alpha), x),
    decreases c.len(),
{
    let m = p();
    let cx = c.push(x);
    if c.len() == 0 {
        assert(cx.drop_first() =~= Seq::<int>::empty());
        lemma_pow0(alpha);
        lemma_small_mod(1, m as nat);
        lemma_mod_twice(x, m);
        assert(f_mul(exp_mod(alpha, 0), x) == x % m);
        assert(alpha_sum(cx.drop_first(), alpha) == 0);
        assert(alpha_sum(cx, alpha) == f_add(f_mul(exp_mod(alpha, 0), x), 0));
        assert(alpha_sum(c, alpha) == 0);
        assert(f_mul(0, alpha) == 0);
        assert(f_add(x % m, 0) == x % m);
    } else {
        let n = c.len();
        let c0 = c[0];
        let t = c.drop_first();
        assert(cx.drop_first() =~= t.push(x));
        assert(cx[0] == c0);
        lemma_alpha_sum_push(t, x, alpha);
        let st = alpha_sum(t, alpha);
        let e1 = exp_mod(alpha, (n - 1) as nat);
        crate::dft::lemma_exp_mod_succ(alpha, (n - 1) as nat);
        lemma_step_arith(e1, alpha, c0, st, x);
        assert(cx.len() - 1 == n);
        assert(alpha_sum(cx, alpha) == f_add(f_mul(exp_mod(alpha, n as nat), c0), alpha_sum(t.push(x), alpha)));
        assert(alpha_sum(c, alpha) == f_add(f_mul(e1, c0), st));
    }
}

/// `alpha^n c0 + (st alpha + x) == (alpha^(n-1) c0 + st) alpha + x`, modulo `p`, with the
/// reductions where the two sums make them.
proof fn lemma_step_arith(e1: int, alpha: int, c0: int, st: int, x: int)
    ensures
        f_add(f_mul((e1 * alpha) % p(), c0), f_add(f_mul(st, alpha), x)) == f_add(
            f_mul(f_add(f_mul(e1, c0), st), alpha),
            x,
        ),
{
    let m = p();
    let a = e1 * alpha * c0;
    let b = st * alpha + x;
    assert(((e1 * alpha) % m * c0) % m == a % m) by {
        lemma_mul_mod_noop_left(e1 * alpha, c0, m);
    }
    assert(((st * alpha) % m + x) % m == b % m) by {
        lemma_add_mod_noop_right(x, st * alpha, m);
    }
    assert((a % m + b % m) % m == (a + b) % m) by {
        lemma_add_mod_noop(a, b, m);
    }
    assert(((e1 * c0) % m + st) % m == (e1 * c0 + st) % m) by {
        lemma_add_mod_noop_right(st, e1 * c0, m);
    }
    assert((((e1 * c0 + st) % m) * alpha) % m == ((e1 * c0 + st) * alpha) % m) by {
        lemma_mul_mod_noop_left(e1 * c0 + st, alpha, m);
    }
    assert((((e1 * c0 + st) * alpha) % m + x) % m == ((e1 * c0 + st) * alpha + x) % m) by {
        lemma_add_mod_noop_right(x, (e1 * c0 + st) * alpha, m);
    }
    assert((e1 * c0 + st) * alpha + x == e1 * alpha * c0 + (st * alpha + x)) by (nonlinear_arith);
}

/// Folding the constraints with `alpha` in emission order, `a <- a * alpha + c_k`, gives
/// the weighted sum `sum_k alpha^(K-1-k) * c_k`.
pub proof fn lemma_fold_is_weighted_sum(constraints: Seq<int>, alpha: int)
    ensures
        fold_alpha(constraints, alpha) == alpha_sum(constraints, alpha),
    decreases constraints.len(),
{
    if constraints.len() > 0 {
        let init = constraints.drop_last();
        lemma_fold_is_weighted_sum(init, alpha);
        lemma_alpha_sum_push(init, constraints.last(), alpha);
        assert(init.push(constraints.last()) =~= constraints);
    }
}

/// The constraint values as integers.
pub open spec fn vals(s: Seq<Felt>) -> Seq<int> {
    Seq::new(s.len(), |j: int| s[j].val as int)
}

pub open spec fn all_wf(s: Seq<Felt>) -> bool {
    forall|j: int| 0 <= j < s.len() ==> (#[trigger] s[j]).wf()
}

/// Folds the constraint values emitted at one point into the accumulator, in order:
/// each one updates `a <- a * alpha + c_k`.
pub fn fold_constraints(constraints: &Vec<Felt>, alpha: Felt) -> (r: Felt)
    requires
        all_wf(constraints@),
        alpha.wf(),
    ensures
        r.wf(),
        r.val == fold_alpha(vals(constraints@), alpha.val as int),
        r.val == alpha_sum(vals(constraints@), alpha.val as int),
{
    let mut acc = Felt::zero();
    let mut k: usize = 0;
    proof {
        assert(vals(constraints@).take(0) =~= Seq::<int>::empty());
    }
    while k < constraints.len()
        invariant
            all_wf(constraints@),
            alpha.wf(),
            k <= constraints@.len(),
            acc.wf(),
            acc.val == fold_alpha(vals(constraints@).take(k as int), alpha.val as int),
        decreases constraints@.len() - k,
    {
        proof {
            let t = vals(constraints@).take(k + 1);
            assert(t.drop_last() =~= vals(constraints@).take(k as int));
        }
        acc = acc.mul(alpha).add(constraints[k]);
        k = k + 1;
    }
    proof {
        assert(vals(constraints@).take(constraints@.len() as int) =~= vals(constraints@));
        lemma_fold_is_weighted_sum(vals(constraints@), alpha.val as int);
    }
    acc
}

/// `[alpha^(n-1), ..., alpha, 1]`: the weights of the constraints in emission order.
pub fn alpha_powers_reversed(alpha: Felt, n: usize) -> (r: Vec<Felt>)
    requires
        alpha.wf(),
    ensures
        r@.len() == n,
        forall|k: int| 0 <= k < n ==> (#[trigger] r@[k]).wf() && r@[k].val == exp_mod(alpha.val as int, (n - 1 - k) as nat),
{
    let mut powers: Vec<Felt> = Vec::new();
    let mut x = Felt::one();
    let mut j: usize = 0;
    proof {
        lemma_pow0(alpha.val as int);
        lemma_small_mod(1, p() as nat);
    }
    while j < n
        invariant
            alpha.wf(),
            j <= n,
            powers@.len() == j,
            x.wf(),
            x.val == exp_mod(alpha.val as int, j as nat),
            forall|k: int| 0 <= k < j ==> (#[trigger] powers@[k]).wf() && powers@[k].val == exp_mod(alpha.val as int, k as nat),
        decreases n - j,
    {
        powers.push(x);
        proof {
            crate::dft::lemma_exp_mod_succ(alpha.val as int, j as nat);
        }
        x = x.mul(alpha);
        j = j + 1;
    }
    let mut r: Vec<Felt> = Vec::new();
    let mut i: usize = n;
    while i > 0
        invariant
            i <= n,
            powers@.len() == n,
            r@.len() == n - i,
            forall|k: int| 0 <= k < n ==> (#[trigger] powers@[k]).wf() && powers@[k].val == exp_mod(alpha.val as int, k as nat),
            forall|k: int| 0 <= k < r@.len() ==> (#[trigger] r@[k]) == powers@[n - 1 - k],
        decreases i,
    {
        i = i - 1;
        r.push(powers[i]);
    }
    r
}

/// `x^(2^log_n) - 1`: the polynomial that vanishes exactly on the subgroup of order `2^log_n`.
pub open spec fn vanishing(x: int, log_n: nat) -> int {
    f_sub(exp_mod(x, pow2(log_n)), 1)
}

/// Evaluates the vanishing polynomial of the subgroup of order `2^log_n` at `x`.
pub fn vanishing_poly(x: Felt, log_n: usize) -> (r: Felt)
    requires
        x.wf(),
        log_n < 64,
    ensures
        r.wf(),
        r.val == vanishing(x.val as int, log_n as nat),
{
    let mut y = x;
    let mut j: usize = 0;
    proof {
        lemma2_to64();
        lemma_pow1(x.val as int);
        lemma_small_mod(x.val as nat, p() as nat);
    }
    while j < log_n
        invariant
            x.wf(),
            y.wf(),
            j <= log_n,
            y.val == exp_mod(x.val as int, pow2(j as nat)),
        decreases log_n - j,
    {
        proof {
            lemma_pow2_unfold((j + 1) as nat);
            let e = pow2(j as nat);
            lemma_pow_adds(x.val as int, e, e);
            lemma_mul_mod_noop(pow(x.val as int, e), pow(x.val as int, e), p());
        }
        y = y.mul(y);
        j = j + 1;
    }
    y.sub(Felt::one())
}

/// The selector values at a point `x`, for a trace on the subgroup `H` of order `2^log_n`
/// with generator `h`.
#[derive(Clone, Copy, Debug)]
pub struct Selectors {
    /// `Z_H(x) / (x - 1)`: nonzero on the first row only.
    pub is_first_row: Felt,
    /// `Z_H(x) / (x - h^-1)`: nonzero on the last row only.
    pub is_last_row: Felt,
    /// `x - h^-1`: zero on the last row only.
    pub is_transition: Felt,
    /// `1 / Z_H(x)`.
    pub inv_vanishing: Felt,
}

/// The selectors of the subgroup of order `2^log_n` at `x`, as `Selectors` describes them.
pub open spec fn selectors_spec(s: Selectors, x: int, log_n: nat) -> bool {
    let z = vanishing(x, log_n);
    let g_inv = inv_mod(two_adic_gen(log_n));
    &&& s.is_first_row.wf()
    &&& s.is_last_row.wf()
    &&& s.is_transition.wf()
    &&& s.inv_vanishing.wf()
    &&& s.is_first_row.val == f_div(z, f_sub(x, 1))
    &&& s.is_last_row.val == f_div(z, f_sub(x, g_inv))
    &&& s.is_transition.val == f_sub(x, g_inv)
    &&& s.inv_vanishing.val == inv_mod(z)
}

/// Evaluates the selectors of the subgroup of order `2^log_n` at `x`.
pub fn selectors_at(x: Felt, log_n: usize) -> (r: Selectors)
    requires
        x.wf(),
        log_n <= TWO_ADICITY,
    ensures
        selectors_spec(r, x.val as int, log_n as nat),
{
    let z = vanishing_poly(x, log_n);
    let g_inv = two_adic_generator(log_n).inverse();
    Selectors {
        is_first_row: z.div(x.sub(Felt::one())),
        is_last_row: z.div(x.sub(g_inv)),
        is_transition: x.sub(g_inv),
        inv_vanishing: z.inverse(),
    }
}

/// The quotient at each point: the folded constraints there times the inverse of the
/// vanishing polynomial there.
pub fn quotient_values(constraints: &Vec<Vec<Felt>>, alpha: Felt, inv_vanishing: &Vec<Felt>) -> (r: Vec<Felt>)
    requires
        alpha.wf(),
        constraints@.len() == inv_vanishing@.len(),
        all_wf(inv_vanishing@),
        forall|i: int| 0 <= i < constraints@.len() ==> all_wf((#[trigger] constraints@[i])@),
    ensures
        r@.len() == constraints@.len(),
        forall|i: int|
            0 <= i < r@.len() ==> (#[trigger] r@[i]).wf() && r@[i].val == f_mul(
                fold_alpha(vals(constraints@[i]@), alpha.val as int),
                inv_vanishing@[i].val as int,
            ),
{
    let mut out: Vec<Felt> = Vec::new();
    let mut i: usize = 0;
    while i < constraints.len()
        invariant
            alpha.wf(),
            constraints@.len() == inv_vanishing@.len(),
            all_wf(inv_vanishing@),
            forall|i: int| 0 <= i < constraints@.len() ==> all_wf((#[trigger] constraints@[i])@),
            i <= constraints@.len(),
            out@.len() == i,
            forall|k: int|
                0 <= k < i ==> (#[trigger] out@[k]).wf() && out@[k].val == f_mul(
                    fold_alpha(vals(constraints@[k]@), alpha.val as int),
                    inv_vanishing@[k].val as int,
                ),
        decreases constraints@.len() - i,
    {
        let acc = fold_constraints(&constraints[i], alpha);
        out.push(acc.mul(inv_vanishing[i]));
        i = i + 1;
    }
    out
}

/// Splits `values` into `num_chunks` interleaved chunks: chunk `k` holds entries
/// `k, k + num_chunks, k + 2 * num_chunks, ...`, the evaluations on one sub-coset.
pub fn split_evals(values: &Vec<Felt>, num_chunks: usize) -> (r: Vec<Vec<Felt>>)
    requires
        num_chunks > 0,
        values@.len() % (num_chunks as nat) == 0,
    ensures
        r@.len() == num_chunks,
        forall|k: int|
            0 <= k < num_chunks ==> (#[trigger] r@[k])@.len() == values@.len() / (num_chunks as nat),
        forall|k: int, j: int|
            0 <= k < num_chunks && 0 <= j < values@.len() / (num_chunks as nat) ==> (#[trigger] r@[k]@[j])
                == values@[j * num_chunks + k],
        all_wf(values@) ==> forall|k: int| 0 <= k < num_chunks ==> all_wf((#[trigger] r@[k])@),
{
    let n = values.len();
    let len = n / num_chunks;
    proof {
        lemma_fundamental_div_mod(n as int, num_chunks as int);
        lemma_mul_is_commutative(num_chunks as int, len as int);
    }
    let mut chunks: Vec<Vec<Felt>> = Vec::new();
    let mut k: usize = 0;
    while k < num_chunks
        invariant
            n == values@.len(),
            len * num_chunks == n,
            len == values@.len() / (num_chunks as nat),
            k <= num_chunks,
            chunks@.len() == k,
            forall|k2: int| 0 <= k2 < k ==> (#[trigger] chunks@[k2])@.len() == len,
            forall|k2: int, j: int|
                0 <= k2 < k && 0 <= j < len ==> (#[trigger] chunks@[k2]@[j]) == values@[j * num_chunks + k2],
            all_wf(values@) ==> forall|k2: int| 0 <= k2 < k ==> all_wf((#[trigger] chunks@[k2])@),
        decreases num_chunks - k,
    {
        let mut chunk: Vec<Felt> = Vec::new();
        let mut j: usize = 0;
        while j < len
            invariant
                n == values@.len(),
                len * num_chunks == n,
                k < num_chunks,
                j <= len,
                chunk@.len() == j,
                forall|j2: int| 0 <= j2 < j ==> (#[trigger] chunk@[j2]) == values@[j2 * num_chunks + k],
                all_wf(values@) ==> all_wf(chunk@),
            decreases len - j,
        {
            proof {
                lemma_mul_inequality(j as int + 1, len as int, num_chunks as int);
                lemma_mul_is_distributive_add_other_way(num_chunks as int, j as int, 1);
                lemma_mul_is_commutative(num_chunks as int, j as int);
                lemma_mul_is_commutative(num_chunks as int, j as int + 1);
            }
            chunk.push(values[j * num_chunks + k]);
            j = j + 1;
        }
        chunks.push(chunk);
        k = k + 1;
    }
    chunks
}

/// The least `k` with `2^k >= n`.
pub fn log2_ceil_usize(n: usize) -> (k: usize)
    ensures
        pow2(k as nat) >= n,
        k == 0 || pow2((k - 1) as nat) < n,
{
    let mut k: usize = 0;
    let mut m: u128 = 1;
    proof {
        lemma2_to64();
    }
    while m < n as u128
        invariant
            m == pow2(k as nat),
            k == 0 || pow2((k - 1) as nat) < n,
            k <= 64,
        decreases 64 - k,
    {
        proof {
            lemma_pow2_unfold((k + 1) as nat);
            lemma2_to64_rest();
            if k >= 64 {
                if k > 64 {
                    lemma_pow2_strictly_increases(64, k as nat);
                }
                assert(false);
            }
        }
        m = m * 2;
        k = k + 1;
    }
    k
}

} // verus!
