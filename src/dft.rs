use crate::field::{exp_mod, inv_mod, p, two_adic_gen, two_adic_generator, Felt, MODULUS, TWO_ADICITY};
use crate::matrix::{entry, lemma_entry_index, lemma_row_in_bounds, swapped, RowMajorMatrix};
use crate::util::log2_strict_usize;
use vstd::arithmetic::div_mod::*;
use vstd::arithmetic::mul::*;
use vstd::arithmetic::power::*;
use vstd::arithmetic::power2::*;
use vstd::prelude::*;

verus! {

/// `sum_j coeffs[j] * x^j mod p`: the polynomial with these coefficients, evaluated at `x`.
pub open spec fn poly_eval(coeffs: Seq<int>, x: int) -> int
    decreases coeffs.len(),
{
    if coeffs.len() == 0 {
        0
    } else {
        (poly_eval(coeffs.drop_last(), x) + coeffs.last() * exp_mod(x, (coeffs.len() - 1) as nat))
            % p()
    }
}

/// Column `c` of `m`, as integers.
pub open spec fn column(m: RowMajorMatrix<Felt>, c: int) -> Seq<int> {
    Seq::new(m.height_spec(), |r: int| m.at(r, c).val as int)
}

/// Every entry of `m` is a canonical field element.
pub open spec fn entries_wf(m: RowMajorMatrix<Felt>) -> bool {
    forall|t: int| 0 <= t < m.values@.len() ==> (#[trigger] m.values@[t]).wf()
}

/// The exponent `b` with `2^b == n`, for a power of two `n`.
pub open spec fn log2_of(n: nat) -> nat {
    choose|b: nat| pow2(b) == n
}

/// `n` is a power of two no larger than the field's two-adic subgroup.
pub open spec fn two_adic_size(n: nat) -> bool {
    exists|b: nat| pow2(b) == n && b <= TWO_ADICITY
}

/// `m` can be transformed: well formed, canonical entries, and a height that is a power
/// of two the field's two-adic subgroup admits.
pub open spec fn dft_input(m: RowMajorMatrix<Felt>) -> bool {
    &&& m.wf()
    &&& entries_wf(m)
    &&& two_adic_size(m.height_spec())
}

/// The generator of the subgroup whose order is the height of `m`.
pub open spec fn height_gen(m: RowMajorMatrix<Felt>) -> int {
    two_adic_gen(log2_of(m.height_spec()))
}

/// `out` holds, in row `i` and column `c`, column `c` of `m` read as coefficients and
/// evaluated at `x^i`.
pub open spec fn evaluations_at_powers(
    out: RowMajorMatrix<Felt>,
    m: RowMajorMatrix<Felt>,
    x: int,
) -> bool {
    &&& out.wf()
    &&& entries_wf(out)
    &&& out.width == m.width
    &&& out.height_spec() == m.height_spec()
    &&& forall|i: int, c: int|
        0 <= i < m.height_spec() && 0 <= c < m.width ==> (#[trigger] out.at(i, c)).val
            == poly_eval(column(m, c), exp_mod(x, i as nat))
}

/// `out` is the transform of `m`: each column evaluated on the subgroup of order `height(m)`.
pub open spec fn is_dft_of(out: RowMajorMatrix<Felt>, m: RowMajorMatrix<Felt>) -> bool {
    evaluations_at_powers(out, m, height_gen(m))
}

pub proof fn lemma_exp_mod_succ(a: int, e: nat)
    ensures
        exp_mod(a, e + 1) == (exp_mod(a, e) * a) % p(),
{
    lemma_pow_adds(a, e, 1);
    lemma_pow1(a);
    lemma_mul_mod_noop_left(pow(a, e), a, p());
}

/// Evaluates column `c` of `m`, read as coefficients, at `x`.
pub fn eval_column(m: &RowMajorMatrix<Felt>, c: usize, x: Felt) -> (r: Felt)
    requires
        m.wf(),
        entries_wf(*m),
        c < m.width,
        x.wf(),
    ensures
        r.wf(),
        r.val == poly_eval(column(*m, c as int), x.val as int),
{
    let h = m.height();
    let w = m.width;
    let len = m.values.len();
    let ghost col = column(*m, c as int);
    let mut acc = Felt::zero();
    let mut xp = Felt::one();
    let mut j: usize = 0;
    let mut jw: usize = 0;
    proof {
        lemma_pow0(x.val as int);
        lemma_small_mod(1, p() as nat);
        assert(col.take(0) =~= Seq::<int>::empty());
    }
    while j < h
        invariant
            m.wf(),
            entries_wf(*m),
            h == m.height_spec(),
            len == m.values@.len(),
            w == m.width,
            c < w,
            x.wf(),
            col == column(*m, c as int),
            j <= h,
            jw == j * w,
            acc.wf(),
            xp.wf(),
            acc.val == poly_eval(col.take(j as int), x.val as int),
            xp.val == exp_mod(x.val as int, j as nat),
        decreases h - j,
    {
        proof {
            lemma_entry_index(len as int, w as int, j as int, c as int);
            lemma_row_in_bounds(len as int, w as int, j as int);
            lemma_mul_is_commutative(j as int, w as int);
        }
        let v = m.values[jw + c];
        let ghost prev: int = acc.val as int;
        acc = acc.add(v.mul(xp));
        proof {
            let t = col.take(j + 1);
            assert(t.drop_last() =~= col.take(j as int));
            assert(t.last() == v.val);
            lemma_add_mod_noop_right(prev, (v.val as int) * (xp.val as int), p());
            lemma_mul_mod_noop_right(v.val as int, pow(x.val as int, j as nat), p());
            lemma_exp_mod_succ(x.val as int, j as nat);
            lemma_mul_is_distributive_add_other_way(w as int, j as int, 1);
            lemma_mul_is_commutative(j as int + 1, w as int);
        }
        xp = xp.mul(x);
        j = j + 1;
        jw = jw + w;
    }
    proof {
        assert(col.take(h as int) =~= col);
    }
    acc
}


/// Evaluates every column of `m`, read as coefficients, at `1, x, x^2, ...`, one row per point.
pub fn evaluate_at_powers(m: &RowMajorMatrix<Felt>, x: Felt) -> (out: RowMajorMatrix<Felt>)
    requires
        m.wf(),
        entries_wf(*m),
        x.wf(),
    ensures
        evaluations_at_powers(out, *m, x.val as int),
{
    let h = m.height();
    let w = m.width;
    let mut vals: Vec<Felt> = Vec::new();
    let mut xi = Felt::one();
    let mut i: usize = 0;
    proof {
        lemma_pow0(x.val as int);
        lemma_small_mod(1, p() as nat);
        lemma_fundamental_div_mod(m.values@.len() as int, w as int);
    }
    while i < h
        invariant
            m.wf(),
            entries_wf(*m),
            h == m.height_spec(),
            w == m.width,
            x.wf(),
            i <= h,
            xi.wf(),
            xi.val == exp_mod(x.val as int, i as nat),
            vals@.len() == i * w,
            forall|t: int|
                0 <= t < vals@.len() ==> (#[trigger] vals@[t]).wf() && vals@[t].val == poly_eval(
                    column(*m, t % (w as int)),
                    exp_mod(x.val as int, (t / (w as int)) as nat),
                ),
        decreases h - i,
    {
        let mut c: usize = 0;
        while c < w
            invariant
                m.wf(),
                entries_wf(*m),
                h == m.height_spec(),
                w == m.width,
                x.wf(),
                i < h,
                xi.wf(),
                xi.val == exp_mod(x.val as int, i as nat),
                c <= w,
                vals@.len() == i * w + c,
                forall|t: int|
                    0 <= t < vals@.len() ==> (#[trigger] vals@[t]).wf() && vals@[t].val
                        == poly_eval(
                        column(*m, t % (w as int)),
                        exp_mod(x.val as int, (t / (w as int)) as nat),
                    ),
            decreases w - c,
        {
            let v = eval_column(m, c, xi);
            proof {
                lemma_fundamental_div_mod_converse(i * w + c, w as int, i as int, c as int);
                lemma_mul_is_commutative(i as int, w as int);
            }
            vals.push(v);
            c = c + 1;
        }
        proof {
            lemma_exp_mod_succ(x.val as int, i as nat);
            lemma_mul_is_distributive_add_other_way(w as int, i as int, 1);
            lemma_mul_is_commutative(i as int, w as int);
            lemma_mul_is_commutative(i as int + 1, w as int);
        }
        xi = xi.mul(x);
        i = i + 1;
    }
    proof {
        lemma_mul_is_commutative(h as int, w as int);
        lemma_mul_is_commutative(m.values@.len() as int / w as int, w as int);
        lemma_div_multiples_vanish(h as int, w as int);
        assert forall|i: int, c: int| 0 <= i < h && 0 <= c < w implies (#[trigger] entry_of(
            vals@,
            w,
            i,
            c,
        )).val == poly_eval(column(*m, c), exp_mod(x.val as int, i as nat)) by {
            lemma_entry_index((h * w) as int, w as int, i, c);
            lemma_fundamental_div_mod_converse(i * w + c, w as int, i, c);
        }
    }
    let out = RowMajorMatrix::new(vals, w);
    assert(out.height_spec() == h);
    assert(entries_wf(out));
    assert(forall|i: int, c: int| 0 <= i < h && 0 <= c < w ==> #[trigger] out.at(i, c) == entry_of(vals@, w, i, c));
    out
}

/// Entry `(i, c)` of a matrix of width `w` stored row-major in `vals`.
pub open spec fn entry_of(vals: Seq<Felt>, w: usize, i: int, c: int) -> Felt {
    vals[i * w + c]
}


/// Multiplies every entry of row `i` of `mat` by `shift^i`.
pub fn coset_shift_cols(mat: &mut RowMajorMatrix<Felt>, shift: Felt)
    requires
        old(mat).wf(),
        entries_wf(*old(mat)),
        shift.wf(),
    ensures
        final(mat).wf(),
        entries_wf(*final(mat)),
        final(mat).width == old(mat).width,
        final(mat).values@.len() == old(mat).values@.len(),
        forall|i: int, c: int|
            0 <= i < old(mat).height_spec() && 0 <= c < old(mat).width ==> (#[trigger] final(mat).at(i, c)).val == (old(mat).at(i, c).val * exp_mod(shift.val as int, i as nat)) % p(),
{
    let h = mat.height();
    let w = mat.width;
    let ghost orig = mat.values@;
    let n = mat.values.len();
    let mut sp = Felt::one();
    let mut i: usize = 0;
    let mut t: usize = 0;
    proof {
        lemma_pow0(shift.val as int);
        lemma_small_mod(1, p() as nat);
        lemma_fundamental_div_mod(orig.len() as int, w as int);
        lemma_mul_is_commutative(h as int, w as int);
    }
    while i < h
        invariant
            mat.width == w,
            w > 0,
            h == orig.len() / (w as nat),
            h * w == orig.len(),
            mat.values@.len() == orig.len(),
            forall|k: int| 0 <= k < orig.len() ==> (#[trigger] orig[k]).wf(),
            shift.wf(),
            i <= h,
            n == orig.len(),
            t <= orig.len(),
            t == i * w,
            sp.wf(),
            sp.val == exp_mod(shift.val as int, i as nat),
            forall|k: int|
                0 <= k < t ==> (#[trigger] mat.values@[k]).wf() && mat.values@[k].val == (
                orig[k].val * exp_mod(shift.val as int, (k / (w as int)) as nat)) % p(),
            forall|k: int| t <= k < orig.len() ==> #[trigger] mat.values@[k] == orig[k],
        decreases h - i,
    {
        proof {
            lemma_mul_is_distributive_add_other_way(w as int, i as int, 1);
            lemma_mul_is_commutative(w as int, i as int);
            lemma_mul_is_commutative(w as int, i as int + 1);
            lemma_mul_inequality(i as int + 1, h as int, w as int);
        }
        let mut c: usize = 0;
        while c < w
            invariant
                mat.width == w,
                w > 0,
                h * w == orig.len(),
                mat.values@.len() == orig.len(),
                forall|k: int| 0 <= k < orig.len() ==> (#[trigger] orig[k]).wf(),
                shift.wf(),
                i < h,
                t == i * w + c,
                i * w + w <= orig.len(),
                n == orig.len(),
                c <= w,
                sp.wf(),
                sp.val == exp_mod(shift.val as int, i as nat),
                forall|k: int|
                    0 <= k < t ==> (#[trigger] mat.values@[k]).wf() && mat.values@[k].val == (
                    orig[k].val * exp_mod(shift.val as int, (k / (w as int)) as nat)) % p(),
                forall|k: int| t <= k < orig.len() ==> #[trigger] mat.values@[k] == orig[k],
            decreases w - c,
        {
            proof {
                lemma_fundamental_div_mod_converse(t as int, w as int, i as int, c as int);
                lemma_mul_is_commutative(i as int, w as int);
            }
            let v = mat.values[t];
            mat.values.set(t, v.mul(sp));
            c = c + 1;
            t = t + 1;
        }
        proof {
            lemma_exp_mod_succ(shift.val as int, i as nat);
        }
        sp = sp.mul(shift);
        i = i + 1;
    }
    proof {
        assert forall|i: int, c: int| 0 <= i < h && 0 <= c < w implies (#[trigger] mat.at(
            i,
            c,
        )).val == (entry(orig, w as nat, i, c).val * exp_mod(shift.val as int, i as nat)) % p()
            by {
            lemma_entry_index(orig.len() as int, w as int, i, c);
            lemma_fundamental_div_mod_converse(i * w + c, w as int, i, c);
        }
        assert forall|k: int| 0 <= k < mat.values@.len() implies (#[trigger] mat.values@[k]).wf() by {}
    }
}

/// Multiplies every entry of `mat` by `s`.
pub fn scale_all(mat: &mut RowMajorMatrix<Felt>, s: Felt)
    requires
        old(mat).wf(),
        entries_wf(*old(mat)),
        s.wf(),
    ensures
        final(mat).wf(),
        entries_wf(*final(mat)),
        final(mat).width == old(mat).width,
        final(mat).values@.len() == old(mat).values@.len(),
        forall|k: int|
            0 <= k < old(mat).values@.len() ==> (#[trigger] final(mat).values@[k]).val == (old(mat).values@[k].val * s.val) % p(),
{
    let ghost orig = mat.values@;
    let ghost w0 = mat.width;
    let n = mat.values.len();
    let mut t: usize = 0;
    while t < n
        invariant
            n == orig.len(),
            mat.values@.len() == n,
            mat.width == w0,
            w0 > 0,
            orig.len() % (w0 as nat) == 0,
            forall|k: int| 0 <= k < n ==> (#[trigger] orig[k]).wf(),
            s.wf(),
            t <= n,
            forall|k: int|
                0 <= k < t ==> (#[trigger] mat.values@[k]).wf() && mat.values@[k].val == (
                orig[k].val * s.val) % p(),
            forall|k: int| t <= k < n ==> #[trigger] mat.values@[k] == orig[k],
        decreases n - t,
    {
        let v = mat.values[t];
        mat.values.set(t, v.mul(s));
        t = t + 1;
    }
}

/// Appends zero rows to `mat` until it has `new_h` rows.
pub fn pad_rows(mat: &mut RowMajorMatrix<Felt>, new_h: usize)
    requires
        old(mat).wf(),
        entries_wf(*old(mat)),
        old(mat).height_spec() <= new_h,
        new_h * old(mat).width <= usize::MAX,
    ensures
        final(mat).wf(),
        entries_wf(*final(mat)),
        final(mat).width == old(mat).width,
        final(mat).height_spec() == new_h,
        final(mat).values@.len() == new_h * old(mat).width,
        forall|i: int, c: int|
            0 <= i < new_h && 0 <= c < old(mat).width ==> #[trigger] final(mat).at(i, c) == if i
                < old(mat).height_spec() {
                old(mat).at(i, c)
            } else {
                Felt { val: 0 }
            },
{
    let w = mat.width;
    let target = new_h * w;
    let ghost orig = mat.values@;
    let ghost h = mat.height_spec();
    proof {
        lemma_fundamental_div_mod(orig.len() as int, w as int);
        lemma_mul_is_commutative(h as int, w as int);
        lemma_mul_inequality(h as int, new_h as int, w as int);
    }
    while mat.values.len() < target
        invariant
            mat.width == w,
            w > 0,
            orig.len() == h * w,
            h <= new_h,
            target == new_h * w,
            orig.len() <= mat.values@.len() <= target,
            forall|k: int| 0 <= k < orig.len() ==> #[trigger] mat.values@[k] == orig[k],
            forall|k: int| orig.len() <= k < mat.values@.len() ==> #[trigger] mat.values@[k] == (Felt { val: 0 }),
        decreases target - mat.values@.len(),
    {
        mat.values.push(Felt::zero());
    }
    proof {
        lemma_mul_is_commutative(new_h as int, w as int);
        lemma_div_multiples_vanish(new_h as int, w as int);
        lemma_mod_multiples_basic(new_h as int, w as int);
        assert forall|i: int, c: int| 0 <= i < new_h && 0 <= c < w implies #[trigger] mat.at(i, c)
            == if i < h {
            entry(orig, w as nat, i, c)
        } else {
            Felt { val: 0 }
        } by {
            lemma_entry_index(target as int, w as int, i, c);
            if i < h {
                lemma_entry_index(orig.len() as int, w as int, i, c);
            } else {
                lemma_mul_inequality(h as int, i, w as int);
            }
        }
        assert(entries_wf(*mat));
    }
}


/// Entry `(i, c)` of the transform of `m`.
pub open spec fn dft_value(m: RowMajorMatrix<Felt>, c: int, i: int) -> int {
    poly_eval(column(m, c), exp_mod(height_gen(m), i as nat))
}

/// `-i mod h`, for `0 <= i < h`.
pub open spec fn neg_index(h: int, i: int) -> int {
    if i == 0 {
        0
    } else {
        h - i
    }
}

/// Entry `(i, c)` of the inverse transform of `m`: row `-i` of its transform, divided by
/// its height.
pub open spec fn idft_value(m: RowMajorMatrix<Felt>, c: int, i: int) -> int {
    (dft_value(m, c, neg_index(m.height_spec() as int, i)) * inv_mod(m.height_spec() as int)) % p()
}

/// Column `c` of the inverse transform of `m`.
pub open spec fn idft_column(m: RowMajorMatrix<Felt>, c: int) -> Seq<int> {
    Seq::new(m.height_spec(), |j: int| idft_value(m, c, j))
}

/// `col` with entry `j` multiplied by `s^j`.
pub open spec fn shift_powers(col: Seq<int>, s: int) -> Seq<int> {
    Seq::new(col.len(), |j: int| (col[j] * exp_mod(s, j as nat)) % p())
}

/// `out` is the inverse transform of `m`.
pub open spec fn is_idft_of(out: RowMajorMatrix<Felt>, m: RowMajorMatrix<Felt>) -> bool {
    &&& out.wf()
    &&& entries_wf(out)
    &&& out.width == m.width
    &&& out.height_spec() == m.height_spec()
    &&& forall|i: int, c: int|
        0 <= i < m.height_spec() && 0 <= c < m.width ==> (#[trigger] out.at(i, c)).val
            == idft_value(m, c, i)
}

/// `out` has the shape of `m` with `rows` rows, canonical entries, and in row `i` and
/// column `c` the polynomial `coeffs(c)` evaluated at `x^i`.
pub open spec fn evaluates(
    out: RowMajorMatrix<Felt>,
    width: nat,
    rows: nat,
    coeffs: spec_fn(int) -> Seq<int>,
    x: int,
) -> bool {
    &&& out.wf()
    &&& entries_wf(out)
    &&& out.width == width
    &&& out.height_spec() == rows
    &&& forall|i: int, c: int|
        0 <= i < rows && 0 <= c < width ==> (#[trigger] out.at(i, c)).val == poly_eval(
            coeffs(c),
            exp_mod(x, i as nat),
        )
}

/// Where row `i` stands after rows `1..row` have been exchanged with rows `h-1..h-row`.
pub open spec fn reflected(h: int, row: int, i: int) -> int {
    if (1 <= i < row) || (h - row < i < h) {
        h - i
    } else {
        i
    }
}

/// Evaluating a polynomial with trailing zero coefficients ignores them.
pub proof fn lemma_poly_eval_zeros(s: Seq<int>, n: nat, x: int)
    ensures
        poly_eval(s + Seq::new(n, |j: int| 0int), x) == poly_eval(s, x),
    decreases n,
{
    if n == 0 {
        assert(s + Seq::new(0, |j: int| 0int) =~= s);
    } else {
        let t = s + Seq::new(n, |j: int| 0int);
        assert(t.drop_last() =~= s + Seq::new((n - 1) as nat, |j: int| 0int));
        assert(t.last() == 0);
        assert(t.last() * exp_mod(x, (t.len() - 1) as nat) == 0);
        lemma_poly_eval_zeros(s, (n - 1) as nat, x);
        lemma_poly_eval_range(s, x);
        lemma_small_mod(poly_eval(s, x) as nat, p() as nat);
    }
}

pub proof fn lemma_poly_eval_range(s: Seq<int>, x: int)
    ensures
        0 <= poly_eval(s, x) < p(),
{
}

/// A power of two no larger than the two-adic subgroup is at most `2^27`, and even unless it is 1.
pub proof fn lemma_two_adic_size(n: nat)
    requires
        two_adic_size(n),
    ensures
        1 <= n <= 134217728,
        n == 1 || n % 2 == 0,
        pow2(log2_of(n)) == n,
        log2_of(n) <= TWO_ADICITY,
{
    let b = choose|b: nat| pow2(b) == n && b <= TWO_ADICITY;
    lemma_log2_of(n, b);
    lemma2_to64();
    lemma_pow2_pos(b);
    if b < 27 {
        lemma_pow2_strictly_increases(b, 27);
    }
    if b > 0 {
        lemma_pow2_unfold(b);
    }
}


/// `h * 2^added_bits`.
pub fn extended_height(h: usize, added_bits: usize) -> (r: usize)
    requires
        h * pow2(added_bits as nat) <= usize::MAX,
    ensures
        r == h * pow2(added_bits as nat),
{
    let mut r = h;
    let mut j: usize = 0;
    proof {
        lemma2_to64();
    }
    while j < added_bits
        invariant
            j <= added_bits,
            r == h * pow2(j as nat),
            h * pow2(added_bits as nat) <= usize::MAX,
        decreases added_bits - j,
    {
        proof {
            lemma_pow2_unfold((j + 1) as nat);
            if j + 1 < added_bits {
                lemma_pow2_strictly_increases((j + 1) as nat, added_bits as nat);
            }
            let a = pow2(j as nat) as int;
            let b = pow2((j + 1) as nat) as int;
            let c = pow2(added_bits as nat) as int;
            let hh = h as int;
            assert(hh * b == (hh * a) * 2 && hh * b <= hh * c) by (nonlinear_arith)
                requires
                    b == 2 * a,
                    b <= c,
                    hh >= 0,
            ;
        }
        r = r * 2;
        j = j + 1;
    }
    r
}

/// After the inverse transform of `m` is padded with zero rows to `height(m) * 2^added`,
/// its columns are those of the inverse transform followed by zeros, and its generator is
/// that of the larger subgroup.
pub proof fn lemma_extension_columns(m: RowMajorMatrix<Felt>, padded: RowMajorMatrix<Felt>, added: nat)
    requires
        dft_input(m),
        two_adic_size(m.height_spec() * pow2(added)),
        padded.wf(),
        padded.width == m.width,
        padded.height_spec() == m.height_spec() * pow2(added),
        forall|i: int, c: int|
            0 <= i < padded.height_spec() && 0 <= c < m.width ==> (#[trigger] padded.at(i, c)).val
                == if i < m.height_spec() {
                idft_value(m, c, i)
            } else {
                0
            },
    ensures
        height_gen(padded) == two_adic_gen(log2_of(m.height_spec()) + added),
        m.height_spec() <= padded.height_spec(),
        forall|c: int|
            0 <= c < m.width ==> #[trigger] column(padded, c) =~= idft_column(m, c) + Seq::new(
                (padded.height_spec() - m.height_spec()) as nat,
                |j: int| 0int,
            ),
        forall|c: int, i: int|
            0 <= c < m.width && 0 <= i < padded.height_spec() ==> #[trigger] poly_eval(column(padded, c), exp_mod(height_gen(padded), i as nat))
                == poly_eval(idft_column(m, c), exp_mod(height_gen(padded), i as nat)),
{
    let h = m.height_spec();
    lemma_two_adic_size(h);
    lemma_pow2_adds(log2_of(h), added);
    lemma_log2_of(padded.height_spec(), log2_of(h) + added);
    lemma_pow2_pos(added);
    assert(h <= h * pow2(added)) by (nonlinear_arith)
        requires
            pow2(added) >= 1,
    ;
    assert forall|c: int| 0 <= c < m.width implies #[trigger] column(padded, c) =~= idft_column(m, c) + Seq::new(
            (padded.height_spec() - m.height_spec()) as nat,
            |j: int| 0int,
        ) by {
        let lhs = column(padded, c);
        let rhs = idft_column(m, c) + Seq::new((padded.height_spec() - h) as nat, |j: int| 0int);
        assert forall|j: int| 0 <= j < lhs.len() implies lhs[j] == rhs[j] by {
            assert(lhs[j] == padded.at(j, c).val);
        }
    }
    assert forall|c: int, i: int|
        0 <= c < m.width && 0 <= i < padded.height_spec() implies #[trigger] poly_eval(column(padded, c), exp_mod(height_gen(padded), i as nat))
            == poly_eval(idft_column(m, c), exp_mod(height_gen(padded), i as nat)) by {
        lemma_poly_eval_zeros(idft_column(m, c), (padded.height_spec() - h) as nat, exp_mod(height_gen(padded), i as nat));
    }
}


/// The entries of `v`, as integers.
pub open spec fn ints(v: Seq<Felt>) -> Seq<int> {
    Seq::new(v.len(), |j: int| v[j].val as int)
}

/// `v` can be transformed: canonical entries and a length the two-adic subgroup admits.
pub open spec fn vec_input(v: Seq<Felt>) -> bool {
    &&& forall|j: int| 0 <= j < v.len() ==> (#[trigger] v[j]).wf()
    &&& two_adic_size(v.len())
}

/// The inverse transform of a vector, as integers.
pub open spec fn idft_vec(v: Seq<Felt>) -> Seq<int> {
    Seq::new(
        v.len(),
        |j: int|
            (poly_eval(ints(v), exp_mod(two_adic_gen(log2_of(v.len())), neg_index(v.len() as int, j) as nat))
                * inv_mod(v.len() as int)) % p(),
    )
}

/// The inverse transform of a one-column matrix is that of its vector.
pub proof fn lemma_idft_vec(m: RowMajorMatrix<Felt>, v: Seq<Felt>)
    requires
        m.width == 1,
        m.values@ == v,
        vec_input(v),
    ensures
        idft_column(m, 0) =~= idft_vec(v),
{
    lemma_single_column(m, v);
}

/// A vector read as a matrix of one column.
pub proof fn lemma_single_column(m: RowMajorMatrix<Felt>, v: Seq<Felt>)
    requires
        m.width == 1,
        m.values@ == v,
        vec_input(v),
    ensures
        dft_input(m),
        m.height_spec() == v.len(),
        column(m, 0) =~= ints(v),
        height_gen(m) == two_adic_gen(log2_of(v.len())),
{
    assert(m.values@.len() / 1 == m.values@.len());
    assert forall|j: int| 0 <= j < v.len() implies column(m, 0)[j] == ints(v)[j] by {
        assert(m.at(j, 0) == v[j * 1 + 0]);
    }
}

/// The entries of a matrix of one column are its rows.
pub proof fn lemma_single_column_out(r: RowMajorMatrix<Felt>, n: nat)
    requires
        r.wf(),
        r.width == 1,
        r.height_spec() == n,
    ensures
        r.values@.len() == n,
        forall|i: int| 0 <= i < n ==> #[trigger] r.values@[i] == r.at(i, 0),
{
    assert(r.values@.len() / 1 == r.values@.len());
    assert forall|i: int| 0 <= i < n implies #[trigger] r.values@[i] == r.at(i, 0) by {
        assert(i * 1 + 0 == i);
    }
}

/// Two powers of two are equal only when their exponents are.
pub proof fn lemma_pow2_injective(a: nat, b: nat)
    requires
        pow2(a) == pow2(b),
    ensures
        a == b,
{
    if a < b {
        lemma_pow2_strictly_increases(a, b);
    }
    if b < a {
        lemma_pow2_strictly_increases(b, a);
    }
}

pub proof fn lemma_log2_of(n: nat, k: nat)
    requires
        pow2(k) == n,
    ensures
        log2_of(n) == k,
{
    let b = log2_of(n);
    assert(pow2(b) == n);
    lemma_pow2_injective(b, k);
}

/// Transforms over the two-adic multiplicative subgroups of the field. An implementation
/// supplies `dft_batch`; every other operation is built from it.
pub trait TwoAdicSubgroupDft {
    /// Each column of `mat`, read as the coefficients of a polynomial, evaluated at
    /// `1, g, g^2, ...` where `g` generates the subgroup of order `height(mat)`.
    fn dft_batch(&self, mat: RowMajorMatrix<Felt>) -> (r: RowMajorMatrix<Felt>)
        requires
            dft_input(mat),
        ensures
            is_dft_of(r, mat),
    ;


    /// The transform of one vector.
    fn dft(&self, vec: Vec<Felt>) -> (r: Vec<Felt>)
        requires
            vec_input(vec@),
        ensures
            r@.len() == vec@.len(),
            forall|i: int|
                0 <= i < vec@.len() ==> (#[trigger] r@[i]).wf() && r@[i].val == poly_eval(
                    ints(vec@),
                    exp_mod(two_adic_gen(log2_of(vec@.len())), i as nat),
                ),
    {
        let ghost v = vec@;
        let m = RowMajorMatrix::new_col(vec);
        proof {
            lemma_single_column(m, v);
        }
        let r = self.dft_batch(m);
        proof {
            lemma_single_column_out(r, v.len());
        }
        r.values
    }

    /// The inverse transform of one vector.
    fn idft(&self, vec: Vec<Felt>) -> (r: Vec<Felt>)
        requires
            vec_input(vec@),
        ensures
            r@.len() == vec@.len(),
            forall|i: int|
                0 <= i < vec@.len() ==> (#[trigger] r@[i]).wf() && r@[i].val == (poly_eval(
                    ints(vec@),
                    exp_mod(two_adic_gen(log2_of(vec@.len())), neg_index(vec@.len() as int, i) as nat),
                ) * inv_mod(vec@.len() as int)) % p(),
    {
        let ghost v = vec@;
        let m = RowMajorMatrix::new_col(vec);
        proof {
            lemma_single_column(m, v);
        }
        let r = self.idft_batch(m);
        proof {
            lemma_single_column_out(r, v.len());
        }
        r.values
    }

    /// The coset transform of one vector.
    fn coset_dft(&self, vec: Vec<Felt>, shift: Felt) -> (r: Vec<Felt>)
        requires
            vec_input(vec@),
            shift.wf(),
        ensures
            r@.len() == vec@.len(),
            forall|i: int|
                0 <= i < vec@.len() ==> (#[trigger] r@[i]).wf() && r@[i].val == poly_eval(
                    shift_powers(ints(vec@), shift.val as int),
                    exp_mod(two_adic_gen(log2_of(vec@.len())), i as nat),
                ),
    {
        let ghost v = vec@;
        let m = RowMajorMatrix::new_col(vec);
        proof {
            lemma_single_column(m, v);
        }
        let r = self.coset_dft_batch(m, shift);
        proof {
            lemma_single_column_out(r, v.len());
        }
        r.values
    }

    /// The inverse of `coset_dft` on one vector.
    fn coset_idft(&self, vec: Vec<Felt>, shift: Felt) -> (r: Vec<Felt>)
        requires
            vec_input(vec@),
            shift.wf(),
        ensures
            r@.len() == vec@.len(),
            forall|i: int|
                0 <= i < vec@.len() ==> (#[trigger] r@[i]).wf() && r@[i].val == ((poly_eval(
                    ints(vec@),
                    exp_mod(two_adic_gen(log2_of(vec@.len())), neg_index(vec@.len() as int, i) as nat),
                ) * inv_mod(vec@.len() as int)) % p() * exp_mod(inv_mod(shift.val as int), i as nat))
                    % p(),
    {
        let ghost v = vec@;
        let m = RowMajorMatrix::new_col(vec);
        proof {
            lemma_single_column(m, v);
        }
        let r = self.coset_idft_batch(m, shift);
        proof {
            lemma_single_column_out(r, v.len());
        }
        r.values
    }


    /// The low-degree extension of one vector onto the subgroup `2^added_bits` times larger.
    fn lde(&self, vec: Vec<Felt>, added_bits: usize) -> (r: Vec<Felt>)
        requires
            vec_input(vec@),
            two_adic_size(vec@.len() * pow2(added_bits as nat)),
            vec@.len() * pow2(added_bits as nat) <= usize::MAX,
        ensures
            r@.len() == vec@.len() * pow2(added_bits as nat),
            forall|i: int|
                0 <= i < r@.len() ==> (#[trigger] r@[i]).wf() && r@[i].val == poly_eval(
                    idft_vec(vec@),
                    exp_mod(two_adic_gen(log2_of(vec@.len()) + added_bits as nat), i as nat),
                ),
    {
        let ghost v = vec@;
        let m = RowMajorMatrix::new_col(vec);
        let ghost m0 = m;
        proof {
            lemma_single_column(m, v);
            assert(m.height_spec() * pow2(added_bits as nat) * m.width == v.len() * pow2(added_bits as nat));
        }
        let r = self.lde_batch(m, added_bits);
        proof {
            lemma_single_column_out(r, v.len() * pow2(added_bits as nat));
            lemma_idft_vec(m, v);
        }
        r.values
    }

    /// The low-degree extension of one vector onto a coset of the subgroup `2^added_bits`
    /// times larger.
    fn coset_lde(&self, vec: Vec<Felt>, added_bits: usize, shift: Felt) -> (r: Vec<Felt>)
        requires
            vec_input(vec@),
            shift.wf(),
            two_adic_size(vec@.len() * pow2(added_bits as nat)),
            vec@.len() * pow2(added_bits as nat) <= usize::MAX,
        ensures
            r@.len() == vec@.len() * pow2(added_bits as nat),
            forall|i: int|
                0 <= i < r@.len() ==> (#[trigger] r@[i]).wf() && r@[i].val == poly_eval(
                    shift_powers(idft_vec(vec@), shift.val as int),
                    exp_mod(two_adic_gen(log2_of(vec@.len()) + added_bits as nat), i as nat),
                ),
    {
        let ghost v = vec@;
        let m = RowMajorMatrix::new_col(vec);
        proof {
            lemma_single_column(m, v);
            assert(m.height_spec() * pow2(added_bits as nat) * m.width == v.len() * pow2(added_bits as nat));
        }
        let r = self.coset_lde_batch(m, added_bits, shift);
        proof {
            lemma_single_column_out(r, v.len() * pow2(added_bits as nat));
            lemma_idft_vec(m, v);
        }
        r.values
    }

    /// The inverse transform: the transform, divided by the height, with row `i` exchanged
    /// for row `height - i`.
    fn idft_batch(&self, mat: RowMajorMatrix<Felt>) -> (r: RowMajorMatrix<Felt>)
        requires
            dft_input(mat),
        ensures
            is_idft_of(r, mat),
    {
        let ghost m0 = mat;
        let mut d = self.dft_batch(mat);
        let ghost dd = d;
        let h = d.height();
        proof {
            lemma_two_adic_size(h as nat);
        }
        let inv = Felt::from_u64(h as u64).inverse();
        proof {
            lemma_small_mod(h as nat, p() as nat);
        }
        scale_all(&mut d, inv);
        let ghost scaled = d;
        let mut row: usize = 1;
        while row < h / 2
            invariant
                d.wf(),
                entries_wf(d),
                d.width == m0.width,
                d.height_spec() == h,
                scaled.width == m0.width,
                scaled.height_spec() == h,
                1 <= row <= h / 2 || (row == 1 && h / 2 < 1),
                forall|i: int, c: int|
                    0 <= i < h && 0 <= c < m0.width ==> #[trigger] d.at(i, c) == scaled.at(
                        reflected(h as int, row as int, i),
                        c,
                    ),
            decreases h / 2 - row,
        {
            let ghost prev = d;
            d.swap_rows(row, h - row);
            proof {
                assert forall|i: int, c: int| 0 <= i < h && 0 <= c < m0.width implies #[trigger] d.at(
                    i,
                    c,
                ) == scaled.at(reflected(h as int, row + 1, i), c) by {
                    assert(d.at(i, c) == prev.at(swapped(i, row as int, h - row), c));
                    assert(prev.at(swapped(i, row as int, h - row), c) == scaled.at(
                        reflected(h as int, row as int, swapped(i, row as int, h - row)),
                        c,
                    ));
                }
            }
            row = row + 1;
        }
        proof {
            assert forall|i: int, c: int| 0 <= i < h && 0 <= c < m0.width implies (#[trigger] d.at(
                i,
                c,
            )).val == idft_value(m0, c, i) by {
                let ni = neg_index(h as int, i);
                assert(reflected(h as int, row as int, i) == ni);
                lemma_entry_index(scaled.values@.len() as int, scaled.width as int, ni, c);
                assert(scaled.at(ni, c).val == (dd.at(ni, c).val * inv.val) % p());
                assert(dd.at(ni, c).val == dft_value(m0, c, ni));
            }
        }
        d
    }

    /// The transform onto the coset `shift * H`: row `j` of `mat` is first multiplied by
    /// `shift^j`.
    fn coset_dft_batch(&self, mat: RowMajorMatrix<Felt>, shift: Felt) -> (r: RowMajorMatrix<Felt>)
        requires
            dft_input(mat),
            shift.wf(),
        ensures
            evaluates(
                r,
                mat.width as nat,
                mat.height_spec(),
                |c: int| shift_powers(column(mat, c), shift.val as int),
                height_gen(mat),
            ),
    {
        let ghost m0 = mat;
        let mut m = mat;
        coset_shift_cols(&mut m, shift);
        proof {
            lemma_fundamental_div_mod(m0.values@.len() as int, m0.width as int);
            assert forall|c: int| 0 <= c < m0.width implies #[trigger] column(m, c) =~= shift_powers(
                column(m0, c),
                shift.val as int,
            ) by {}
        }
        self.dft_batch(m)
    }

    /// The inverse of `coset_dft_batch`: the inverse transform, then row `j` multiplied by
    /// `shift^-j`.
    fn coset_idft_batch(&self, mat: RowMajorMatrix<Felt>, shift: Felt) -> (r: RowMajorMatrix<Felt>)
        requires
            dft_input(mat),
            shift.wf(),
        ensures
            r.wf(),
            entries_wf(r),
            r.width == mat.width,
            r.height_spec() == mat.height_spec(),
            forall|i: int, c: int|
                0 <= i < mat.height_spec() && 0 <= c < mat.width ==> (#[trigger] r.at(i, c)).val
                    == (idft_value(mat, c, i) * exp_mod(inv_mod(shift.val as int), i as nat)) % p(),
    {
        let mut m = self.idft_batch(mat);
        coset_shift_cols(&mut m, shift.inverse());
        m
    }

    /// The low-degree extension onto the subgroup `2^added_bits` times larger: the
    /// polynomials that `mat` evaluates on the smaller subgroup, evaluated on the larger.
    fn lde_batch(&self, mat: RowMajorMatrix<Felt>, added_bits: usize) -> (r: RowMajorMatrix<Felt>)
        requires
            dft_input(mat),
            two_adic_size(mat.height_spec() * pow2(added_bits as nat)),
            mat.height_spec() * pow2(added_bits as nat) * mat.width <= usize::MAX,
        ensures
            evaluates(
                r,
                mat.width as nat,
                mat.height_spec() * pow2(added_bits as nat),
                |c: int| idft_column(mat, c),
                two_adic_gen(log2_of(mat.height_spec()) + added_bits as nat),
            ),
    {
        let ghost m0 = mat;
        let mut coeffs = self.idft_batch(mat);
        proof {
            lemma_pow2_pos(added_bits as nat);
            let hp = m0.height_spec() * pow2(added_bits as nat);
            assert(hp <= hp * m0.width && m0.height_spec() <= hp) by (nonlinear_arith)
                requires
                    m0.width >= 1,
                    pow2(added_bits as nat) >= 1,
                    hp == m0.height_spec() * pow2(added_bits as nat),
            ;
        }
        let new_h = extended_height(coeffs.height(), added_bits);
        pad_rows(&mut coeffs, new_h);
        proof {
            lemma_extension_columns(m0, coeffs, added_bits as nat);
        }
        self.dft_batch(coeffs)
    }

    /// The low-degree extension onto the coset `shift * K` of the subgroup `K` that is
    /// `2^added_bits` times larger than the height of `mat`.
    fn coset_lde_batch(
        &self,
        mat: RowMajorMatrix<Felt>,
        added_bits: usize,
        shift: Felt,
    ) -> (r: RowMajorMatrix<Felt>)
        requires
            dft_input(mat),
            shift.wf(),
            two_adic_size(mat.height_spec() * pow2(added_bits as nat)),
            mat.height_spec() * pow2(added_bits as nat) * mat.width <= usize::MAX,
        ensures
            evaluates(
                r,
                mat.width as nat,
                mat.height_spec() * pow2(added_bits as nat),
                |c: int| shift_powers(idft_column(mat, c), shift.val as int),
                two_adic_gen(log2_of(mat.height_spec()) + added_bits as nat),
            ),
    {
        let ghost m0 = mat;
        let mut coeffs = self.idft_batch(mat);
        proof {
            lemma_pow2_pos(added_bits as nat);
            let hp = m0.height_spec() * pow2(added_bits as nat);
            assert(hp <= hp * m0.width && m0.height_spec() <= hp) by (nonlinear_arith)
                requires
                    m0.width >= 1,
                    pow2(added_bits as nat) >= 1,
                    hp == m0.height_spec() * pow2(added_bits as nat),
            ;
        }
        let new_h = extended_height(coeffs.height(), added_bits);
        pad_rows(&mut coeffs, new_h);
        proof {
            lemma_extension_columns(m0, coeffs, added_bits as nat);
        }
        let r = self.coset_dft_batch(coeffs, shift);
        proof {
            assert forall|c: int| 0 <= c < m0.width implies #[trigger] shift_powers(column(coeffs, c), shift.val as int)
                =~= shift_powers(idft_column(m0, c), shift.val as int) + Seq::new(
                    (coeffs.height_spec() - m0.height_spec()) as nat,
                    |j: int| 0int,
                ) by {
                assert(column(coeffs, c) =~= idft_column(m0, c) + Seq::new(
                    (coeffs.height_spec() - m0.height_spec()) as nat,
                    |j: int| 0int,
                ));
            }
            assert forall|i: int, c: int|
                0 <= i < coeffs.height_spec() && 0 <= c < m0.width implies (#[trigger] r.at(i, c)).val
                    == poly_eval(
                    shift_powers(idft_column(m0, c), shift.val as int),
                    exp_mod(two_adic_gen(log2_of(m0.height_spec()) + added_bits as nat), i as nat),
                ) by {
                lemma_poly_eval_zeros(
                    shift_powers(idft_column(m0, c), shift.val as int),
                    (coeffs.height_spec() - m0.height_spec()) as nat,
                    exp_mod(two_adic_gen(log2_of(m0.height_spec()) + added_bits as nat), i as nat),
                );
            }
        }
        r
    }
}

/// The transform computed point by point, each evaluation a sum over the coefficients.
#[derive(Clone, Copy, Debug, Default)]
pub struct NaiveDft;

impl TwoAdicSubgroupDft for NaiveDft {
    fn dft_batch(&self, mat: RowMajorMatrix<Felt>) -> (r: RowMajorMatrix<Felt>) {
        let h = mat.height();
        let k = log2_strict_usize(h);
        proof {
            lemma_log2_of(h as nat, k as nat);
            let b = choose|b: nat| pow2(b) == h && b <= TWO_ADICITY;
            lemma_pow2_injective(b, k as nat);
        }
        let g = two_adic_generator(k);
        evaluate_at_powers(&mat, g)
    }
}

} // verus!
