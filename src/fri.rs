use crate::field::{exp_mod, inv_mod, p, two_adic_gen, two_adic_generator, Felt, TWO_ADICITY};
use crate::matrix::RowMajorMatrix;
use vstd::arithmetic::div_mod::*;
use vstd::arithmetic::mul::*;
use vstd::arithmetic::power2::*;
use vstd::prelude::*;

verus! {

/// The low `n` bits of `x`, in reverse order.
pub open spec fn rev_bits(x: nat, n: nat) -> nat
    decreases n,
{
    if n == 0 {
        0
    } else {
        (x % 2) * pow2((n - 1) as nat) + rev_bits(x / 2, (n - 1) as nat)
    }
}

/// Reversing `n` bits gives a number below `2^n`.
pub proof fn lemma_rev_bits_bound(x: nat, n: nat)
    ensures
        rev_bits(x, n) < pow2(n),
    decreases n,
{
    if n == 0 {
        lemma2_to64();
    } else {
        lemma_rev_bits_bound(x / 2, (n - 1) as nat);
        lemma_pow2_unfold(n);
        assert((x % 2) * pow2((n - 1) as nat) <= pow2((n - 1) as nat)) by (nonlinear_arith)
            requires
                x % 2 <= 1,
        ;
    }
}

/// A power of two up to `2^31` fits in a `usize`.
pub proof fn lemma_pow2_fits(n: nat)
    requires
        n <= 31,
    ensures
        pow2(n) <= usize::MAX,
        pow2(n) > 0,
{
    lemma2_to64();
    lemma_pow2_pos(n);
    if n < 31 {
        lemma_pow2_strictly_increases(n, 31);
    }
}

/// Reverses the low `bits` bits of `x`.
pub fn reverse_bits_len(x: usize, bits: usize) -> (r: usize)
    requires
        pow2(bits as nat) <= usize::MAX,
    ensures
        r == rev_bits(x as nat, bits as nat),
        r < pow2(bits as nat),
{
    let mut r: usize = 0;
    let mut y: usize = x;
    let mut j: usize = 0;
    proof {
        lemma2_to64();
    }
    while j < bits
        invariant
            j <= bits,
            pow2(bits as nat) <= usize::MAX,
            r < pow2(j as nat),
            r * pow2((bits - j) as nat) + rev_bits(y as nat, (bits - j) as nat) == rev_bits(
                x as nat,
                bits as nat,
            ),
        decreases bits - j,
    {
        proof {
            let m = (bits - j) as nat;
            lemma_pow2_unfold(m);
            lemma_pow2_unfold((j + 1) as nat);
            if j + 1 < bits {
                lemma_pow2_strictly_increases((j + 1) as nat, bits as nat);
            }
            let pm1 = pow2((m - 1) as nat) as int;
            let rr = r as int;
            let bit = (y % 2) as int;
            assert((2 * rr + bit) * pm1 == rr * (2 * pm1) + bit * pm1) by (nonlinear_arith);
            assert(pow2((j + 1) as nat) <= usize::MAX);
            assert(2 * rr + bit < pow2((j + 1) as nat));
        }
        r = 2 * r + y % 2;
        y = y / 2;
        j = j + 1;
    }
    proof {
        lemma2_to64();
        assert(pow2(0) == 1);
        assert(rev_bits(y as nat, 0) == 0);
        assert(r * pow2(0) == r);
    }
    r
}

/// `(x >> bits, x & (2^bits - 1))`.
pub fn split_bits(x: usize, bits: usize) -> (r: (usize, usize))
    requires
        pow2(bits as nat) <= usize::MAX,
    ensures
        r.0 == x as nat / pow2(bits as nat),
        r.1 == x as nat % pow2(bits as nat),
{
    let mut d: usize = 1;
    let mut j: usize = 0;
    proof {
        lemma2_to64();
    }
    while j < bits
        invariant
            j <= bits,
            pow2(bits as nat) <= usize::MAX,
            d == pow2(j as nat),
        decreases bits - j,
    {
        proof {
            lemma_pow2_unfold((j + 1) as nat);
            if j + 1 < bits {
                lemma_pow2_strictly_increases((j + 1) as nat, bits as nat);
            }
        }
        d = d * 2;
        j = j + 1;
    }
    proof {
        lemma_pow2_pos(bits as nat);
    }
    (x / d, x % d)
}

/// `(a + b) mod p`, `(a - b) mod p`, `(a * b) mod p` and `a / b` on canonical values.
pub open spec fn f_add(a: int, b: int) -> int {
    (a + b) % p()
}

pub open spec fn f_sub(a: int, b: int) -> int {
    (a - b) % p()
}

pub open spec fn f_mul(a: int, b: int) -> int {
    (a * b) % p()
}

pub open spec fn f_div(a: int, b: int) -> int {
    (a * inv_mod(b)) % p()
}

/// The point of the evaluation domain of a word of length `2^log_word_len`, kept in
/// bit-reversed order, at which the pair `index` starts: `g^rev(index)`.
pub open spec fn pair_point(log_word_len: nat, index: nat) -> int {
    exp_mod(two_adic_gen(log_word_len), rev_bits(index, (log_word_len - 1) as nat))
}

/// The value at `beta` of the line through `(x, e0)` and `(-x, e1)`, where `x` is
/// `pair_point(log_word_len, index)`.
pub open spec fn fold_value(log_word_len: nat, beta: int, index: nat, e0: int, e1: int) -> int {
    let x0 = pair_point(log_word_len, index);
    let x1 = f_sub(0, x0);
    f_add(e0, f_div(f_mul(f_sub(beta, x0), f_sub(e1, e0)), f_sub(x1, x0)))
}

/// Folds the sibling pair `(e0, e1)` of a Reed-Solomon word of length `2^log_word_len`:
/// interpolates the line through the two points and evaluates it at `beta`.
pub fn fold_word_at_point(log_word_len: usize, beta: Felt, index: usize, e0: Felt, e1: Felt) -> (r: Felt)
    requires
        1 <= log_word_len <= TWO_ADICITY,
        beta.wf(),
        e0.wf(),
        e1.wf(),
    ensures
        r.wf(),
        r.val == fold_value(log_word_len as nat, beta.val as int, index as nat, e0.val as int, e1.val as int),
{
    let g = two_adic_generator(log_word_len);
    proof {
        lemma_pow2_fits((log_word_len - 1) as nat);
    }
    let k = reverse_bits_len(index, log_word_len - 1);
    let x0 = g.exp_u64(k as u64);
    let x1 = x0.neg();
    e0.add(beta.sub(x0).mul(e1.sub(e0)).div(x1.sub(x0)))
}

/// A word of length `2^n` folded once with `beta`.
pub open spec fn folded(w: Seq<Felt>, n: nat, beta: int) -> Seq<Felt> {
    Seq::new(
        pow2((n - 1) as nat),
        |i: int|
            Felt {
                val: fold_value(n, beta, i as nat, w[2 * i].val as int, w[2 * i + 1].val as int) as u32,
            },
    )
}

/// A word of length `2^n` folded with `beta` until its length is `2^target`.
pub open spec fn folded_to(w: Seq<Felt>, n: nat, target: nat, beta: int) -> Seq<Felt>
    decreases n,
{
    if n <= target || n == 0 {
        w
    } else {
        folded_to(folded(w, n, beta), (n - 1) as nat, target, beta)
    }
}

/// Folds a whole word of length `2^log_word_len`, stored in bit-reversed order so that
/// siblings are adjacent: entry `i` of the result folds entries `2i` and `2i + 1`.
pub fn fold_word(word: &Vec<Felt>, log_word_len: usize, beta: Felt) -> (r: Vec<Felt>)
    requires
        1 <= log_word_len <= TWO_ADICITY,
        word@.len() == pow2(log_word_len as nat),
        forall|j: int| 0 <= j < word@.len() ==> (#[trigger] word@[j]).wf(),
        beta.wf(),
    ensures
        r@ == folded(word@, log_word_len as nat, beta.val as int),
        r@.len() == pow2((log_word_len - 1) as nat),
        forall|i: int|
            0 <= i < r@.len() ==> (#[trigger] r@[i]).wf() && r@[i].val == fold_value(
                log_word_len as nat,
                beta.val as int,
                i as nat,
                word@[2 * i].val as int,
                word@[2 * i + 1].val as int,
            ),
{
    proof {
        lemma_pow2_unfold(log_word_len as nat);
    }
    let n = word.len();
    let half = n / 2;
    let mut r: Vec<Felt> = Vec::new();
    let mut i: usize = 0;
    while i < half
        invariant
            1 <= log_word_len <= TWO_ADICITY,
            word@.len() == 2 * half,
            n == word@.len(),
            forall|j: int| 0 <= j < word@.len() ==> (#[trigger] word@[j]).wf(),
            beta.wf(),
            i <= half,
            r@.len() == i,
            forall|k: int|
                0 <= k < r@.len() ==> (#[trigger] r@[k]).wf() && r@[k].val == fold_value(
                    log_word_len as nat,
                    beta.val as int,
                    k as nat,
                    word@[2 * k].val as int,
                    word@[2 * k + 1].val as int,
                ),
        decreases half - i,
    {
        let v = fold_word_at_point(log_word_len, beta, i, word[2 * i], word[2 * i + 1]);
        r.push(v);
        i = i + 1;
    }
    proof {
        assert(r@ =~= folded(word@, log_word_len as nat, beta.val as int));
    }
    r
}


/// The query index at layer `l`: each layer drops the low `arity` bits.
pub open spec fn query_index(index: nat, arity: nat, l: nat) -> nat
    decreases l,
{
    if l == 0 {
        index
    } else {
        query_index(index, arity, (l - 1) as nat) / pow2(arity)
    }
}

/// What a query at `index` opens from one matrix of a layer whose rows hold `2^arity`
/// siblings: the row holding `index`, less the entry standing for `index` itself. A matrix
/// of narrower width `w` holds words folded fewer times; its entry is the position within
/// the group divided by `2^arity / w`.
pub open spec fn sibling_opening(m: RowMajorMatrix<Felt>, index: nat, arity: nat) -> Seq<Felt> {
    m.row_spec((index / pow2(arity)) as int).remove(
        ((index % pow2(arity)) / (pow2(arity) / (m.width as nat))) as int,
    )
}

/// A query at `index` can be answered from `layers`: every matrix of layer `l` has a width
/// that divides `2^arity` and a row for the index the query reaches at that layer.
pub open spec fn query_in_range(layers: Seq<Vec<RowMajorMatrix<Felt>>>, arity: nat, index: nat) -> bool {
    forall|l: int, k: int|
        0 <= l < layers.len() && 0 <= k < layers[l]@.len() ==> (#[trigger] layers[l]@[k]).wf()
            && pow2(arity) % (layers[l]@[k].width as nat) == 0 && query_index(index, arity, l as nat)
            / pow2(arity) < layers[l]@[k].height_spec()
}

/// Answers a query at `index` against the committed layers: at each layer the index is
/// split into a row and a position within the row's group; every matrix of the layer is
/// opened at that row, less the entry standing for the position, and the row becomes the
/// index for the next layer.
pub fn answer_query(layers: &Vec<Vec<RowMajorMatrix<Felt>>>, log_folding_arity: usize, index: usize) -> (r: Vec<Vec<Vec<Felt>>>)
    requires
        pow2(log_folding_arity as nat) <= usize::MAX,
        query_in_range(layers@, log_folding_arity as nat, index as nat),
    ensures
        r@.len() == layers@.len(),
        forall|l: int| 0 <= l < r@.len() ==> (#[trigger] r@[l])@.len() == layers@[l]@.len(),
        forall|l: int, k: int|
            0 <= l < r@.len() && 0 <= k < layers@[l]@.len() ==> (#[trigger] r@[l]@[k])@ == sibling_opening(
                layers@[l]@[k],
                query_index(index as nat, log_folding_arity as nat, l as nat),
                log_folding_arity as nat,
            ),
{
    let mut steps: Vec<Vec<Vec<Felt>>> = Vec::new();
    let mut idx = index;
    let mut l: usize = 0;
    while l < layers.len()
        invariant
            pow2(log_folding_arity as nat) <= usize::MAX,
            query_in_range(layers@, log_folding_arity as nat, index as nat),
            l <= layers@.len(),
            steps@.len() == l,
            idx == query_index(index as nat, log_folding_arity as nat, l as nat),
            forall|j: int| 0 <= j < l ==> (#[trigger] steps@[j])@.len() == layers@[j]@.len(),
            forall|j: int, k: int|
                0 <= j < l && 0 <= k < layers@[j]@.len() ==> (#[trigger] steps@[j]@[k])@ == sibling_opening(
                    layers@[j]@[k],
                    query_index(index as nat, log_folding_arity as nat, j as nat),
                    log_folding_arity as nat,
                ),
        decreases layers@.len() - l,
    {
        let (folded_index, index_in_group) = split_bits(idx, log_folding_arity);
        proof {
            lemma_pow2_pos(log_folding_arity as nat);
            lemma_mod_bound(idx as int, pow2(log_folding_arity as nat) as int);
        }
        let group = crate::dft::extended_height(1, log_folding_arity);
        let layer = &layers[l];
        let mut openings: Vec<Vec<Felt>> = Vec::new();
        let mut k: usize = 0;
        while k < layer.len()
            invariant
                pow2(log_folding_arity as nat) <= usize::MAX,
                query_in_range(layers@, log_folding_arity as nat, index as nat),
                l < layers@.len(),
                *layer == layers@[l as int],
                idx == query_index(index as nat, log_folding_arity as nat, l as nat),
                folded_index == idx as nat / pow2(log_folding_arity as nat),
                index_in_group == idx as nat % pow2(log_folding_arity as nat),
                group == pow2(log_folding_arity as nat),
                index_in_group < group,
                k <= layer@.len(),
                openings@.len() == k,
                forall|j: int|
                    0 <= j < k ==> (#[trigger] openings@[j])@ == sibling_opening(
                        layer@[j],
                        idx as nat,
                        log_folding_arity as nat,
                    ),
            decreases layer@.len() - k,
        {
            let m = &layer[k];
            assert(m.wf() && group as nat % (m.width as nat) == 0);
            let mut opening = m.row(folded_index);
            let step = group / m.width;
            proof {
                lemma_row_len(*m, folded_index as int);
                lemma_group_position(index_in_group as int, group as int, m.width as int);
            }
            opening.remove(index_in_group / step);
            openings.push(opening);
            k = k + 1;
        }
        steps.push(openings);
        idx = folded_index;
        l = l + 1;
    }
    steps
}

/// A position within a group of `g` entries, divided by `g / w`, is a position within `w`.
proof fn lemma_group_position(pos: int, g: int, w: int)
    requires
        0 <= pos < g,
        w > 0,
        g % w == 0,
    ensures
        g / w > 0,
        0 <= pos / (g / w) < w,
{
    lemma_fundamental_div_mod(g, w);
    let s = g / w;
    lemma_mul_is_commutative(w, s);
    if s <= 0 {
        lemma_mul_inequality(s, 0, w);
    }
    lemma_div_pos_is_pos(pos, s);
    lemma_multiply_divide_lt(pos, s, w);
}

proof fn lemma_mod_bound(x: int, d: int)
    requires
        x >= 0,
        d > 0,
    ensures
        0 <= x % d < d,
{
}

pub proof fn lemma_row_len(m: RowMajorMatrix<Felt>, r: int)
    requires
        m.wf(),
        0 <= r < m.height_spec(),
    ensures
        m.row_spec(r).len() == m.width,
{
    crate::matrix::lemma_row_in_bounds(m.values@.len() as int, m.width as int, r);
    lemma_mul_is_distributive_add_other_way(m.width as int, r, 1);
    lemma_mul_is_commutative(m.width as int, r);
    lemma_mul_is_commutative(m.width as int, r + 1);
}

} // verus!
