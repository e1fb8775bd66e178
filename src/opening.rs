use crate::dft::entries_wf;
use crate::field::{two_adic_gen, two_adic_generator, Felt, TWO_ADICITY};
use crate::fri::{f_add, f_div, f_mul, f_sub, lemma_row_len};
use crate::matrix::RowMajorMatrix;
use crate::quotient::all_wf;
use vstd::arithmetic::power2::pow2;
use vstd::prelude::*;

verus! {

/// The claims to open: matrix `m` of `ldes` at each of `points@[m]`, with `values@[m]@[j]`
/// the claimed row of column values at `points@[m]@[j]`.
pub open spec fn claims_ok(
    ldes: Seq<RowMajorMatrix<Felt>>,
    points: Seq<Vec<Felt>>,
    values: Seq<Vec<Vec<Felt>>>,
    n: nat,
) -> bool {
    &&& points.len() == ldes.len()
    &&& values.len() == ldes.len()
    &&& forall|m: int|
        0 <= m < ldes.len() ==> {
            &&& (#[trigger] ldes[m]).wf()
            &&& entries_wf(ldes[m])
            &&& ldes[m].height_spec() == n
            &&& values[m]@.len() == points[m]@.len()
            &&& all_wf(points[m]@)
            &&& forall|j: int|
                0 <= j < values[m]@.len() ==> all_wf((#[trigger] values[m]@[j])@)
                    && values[m]@[j]@.len() == ldes[m].width
        }
}

/// Point `i` of the coset `shift * <g>`: `shift * g^i`.
pub open spec fn coset_point(shift: int, g: int, i: nat) -> int
    decreases i,
{
    if i == 0 {
        shift
    } else {
        f_mul(coset_point(shift, g, (i - 1) as nat), g)
    }
}

/// The first `n` columns of one claim folded into `acc`: each updates
/// `acc <- acc * alpha + (row[c] - claimed[c]) / denom`.
pub open spec fn fold_row(acc: int, row: Seq<Felt>, claimed: Seq<Felt>, denom: int, alpha: int, n: nat) -> int
    decreases n,
{
    if n == 0 {
        acc
    } else {
        f_add(
            f_mul(fold_row(acc, row, claimed, denom, alpha, (n - 1) as nat), alpha),
            f_div(f_sub(row[n - 1].val as int, claimed[n - 1].val as int), denom),
        )
    }
}

/// The first `nj` claims on one matrix, whose row at the point `x` is `row`, folded into `acc`.
pub open spec fn fold_claims(
    acc: int,
    row: Seq<Felt>,
    pts: Seq<Felt>,
    vals: Seq<Vec<Felt>>,
    x: int,
    alpha: int,
    nj: nat,
) -> int
    decreases nj,
{
    if nj == 0 {
        acc
    } else {
        let a = fold_claims(acc, row, pts, vals, x, alpha, (nj - 1) as nat);
        fold_row(a, row, vals[nj - 1]@, f_sub(x, pts[nj - 1].val as int), alpha, row.len())
    }
}

/// The batched quotient at point `i`, `x`, over the claims on the first `nm` matrices.
pub open spec fn fold_point(
    ldes: Seq<RowMajorMatrix<Felt>>,
    points: Seq<Vec<Felt>>,
    values: Seq<Vec<Vec<Felt>>>,
    i: int,
    x: int,
    alpha: int,
    nm: nat,
) -> int
    decreases nm,
{
    if nm == 0 {
        0
    } else {
        let a = fold_point(ldes, points, values, i, x, alpha, (nm - 1) as nat);
        let m = nm - 1;
        fold_claims(a, ldes[m].row_spec(i), points[m]@, values[m]@, x, alpha, points[m]@.len())
    }
}

/// Folds the columns of one claim into `acc`.
fn fold_claim_row(acc: Felt, row: &Vec<Felt>, claimed: &Vec<Felt>, denom: Felt, alpha: Felt) -> (r: Felt)
    requires
        acc.wf(),
        all_wf(row@),
        all_wf(claimed@),
        row@.len() == claimed@.len(),
        denom.wf(),
        alpha.wf(),
    ensures
        r.wf(),
        r.val == fold_row(acc.val as int, row@, claimed@, denom.val as int, alpha.val as int, row@.len()),
{
    let mut a = acc;
    let mut c: usize = 0;
    while c < row.len()
        invariant
            all_wf(row@),
            all_wf(claimed@),
            row@.len() == claimed@.len(),
            denom.wf(),
            alpha.wf(),
            a.wf(),
            c <= row@.len(),
            a.val == fold_row(acc.val as int, row@, claimed@, denom.val as int, alpha.val as int, c as nat),
        decreases row@.len() - c,
    {
        a = a.mul(alpha).add(row[c].sub(claimed[c]).div(denom));
        c = c + 1;
    }
    a
}

/// The batched quotient of the claims over the evaluation domain `shift * H`, `H` of order
/// `2^log_n`: at each point `x` of the domain, every claim `(f, z, y)` in turn updates
/// `acc <- acc * alpha + (f(x) - y) / (x - z)` column by column. It is a low-degree word
/// exactly when the claimed values are those of the committed polynomials.
pub fn deep_quotient(
    ldes: &Vec<RowMajorMatrix<Felt>>,
    points: &Vec<Vec<Felt>>,
    values: &Vec<Vec<Vec<Felt>>>,
    shift: Felt,
    log_n: usize,
    alpha: Felt,
) -> (r: Vec<Felt>)
    requires
        log_n <= TWO_ADICITY,
        shift.wf(),
        alpha.wf(),
        claims_ok(ldes@, points@, values@, pow2(log_n as nat)),
    ensures
        r@.len() == pow2(log_n as nat),
        all_wf(r@),
        forall|i: int|
            0 <= i < r@.len() ==> (#[trigger] r@[i]).val == fold_point(
                ldes@,
                points@,
                values@,
                i,
                coset_point(shift.val as int, two_adic_gen(log_n as nat), i as nat),
                alpha.val as int,
                ldes@.len(),
            ),
{
    proof {
        crate::commit_phase::lemma_word_layout(log_n as nat, 0);
    }
    let n = crate::dft::extended_height(1, log_n);
    let g = two_adic_generator(log_n);
    let ghost gv = two_adic_gen(log_n as nat);
    let mut out: Vec<Felt> = Vec::new();
    let mut x = shift;
    let mut i: usize = 0;
    while i < n
        invariant
            n == pow2(log_n as nat),
            claims_ok(ldes@, points@, values@, n as nat),
            x.wf(),
            g.wf(),
            g.val == gv,
            alpha.wf(),
            i <= n,
            x.val == coset_point(shift.val as int, gv, i as nat),
            out@.len() == i,
            all_wf(out@),
            forall|k: int|
                0 <= k < i ==> (#[trigger] out@[k]).val == fold_point(
                    ldes@,
                    points@,
                    values@,
                    k,
                    coset_point(shift.val as int, gv, k as nat),
                    alpha.val as int,
                    ldes@.len(),
                ),
        decreases n - i,
    {
        let mut acc = Felt::zero();
        let mut m: usize = 0;
        while m < ldes.len()
            invariant
                claims_ok(ldes@, points@, values@, n as nat),
                i < n,
                x.wf(),
                alpha.wf(),
                acc.wf(),
                m <= ldes@.len(),
                acc.val == fold_point(ldes@, points@, values@, i as int, x.val as int, alpha.val as int, m as nat),
            decreases ldes@.len() - m,
        {
            let mat = &ldes[m];
            proof {
                lemma_row_len(*mat, i as int);
                lemma_row_canonical(*mat, i as int);
            }
            let row = mat.row(i);
            let pts = &points[m];
            let vals = &values[m];
            let ghost acc_m = acc.val as int;
            let mut j: usize = 0;
            while j < pts.len()
                invariant
                    claims_ok(ldes@, points@, values@, n as nat),
                    m < ldes@.len(),
                    *mat == ldes@[m as int],
                    *pts == points@[m as int],
                    *vals == values@[m as int],
                    row@ == mat.row_spec(i as int),
                    row@.len() == mat.width,
                    all_wf(row@),
                    x.wf(),
                    alpha.wf(),
                    acc.wf(),
                    j <= pts@.len(),
                    acc.val == fold_claims(acc_m, row@, pts@, vals@, x.val as int, alpha.val as int, j as nat),
                decreases pts@.len() - j,
            {
                let z = pts[j];
                let denom = x.sub(z);
                acc = fold_claim_row(acc, &row, &vals[j], denom, alpha);
                j = j + 1;
            }
            m = m + 1;
        }
        out.push(acc);
        x = x.mul(g);
        i = i + 1;
    }
    out
}

/// The entries of a row of a matrix with canonical entries are canonical.
proof fn lemma_row_canonical(m: RowMajorMatrix<Felt>, r: int)
    requires
        m.wf(),
        entries_wf(m),
        0 <= r < m.height_spec(),
    ensures
        all_wf(m.row_spec(r)),
{
    lemma_row_len(m, r);
    crate::matrix::lemma_row_in_bounds(m.values@.len() as int, m.width as int, r);
    vstd::arithmetic::mul::lemma_mul_is_distributive_add_other_way(m.width as int, r, 1);
    vstd::arithmetic::mul::lemma_mul_nonnegative(r, m.width as int);
    assert forall|j: int| 0 <= j < m.row_spec(r).len() implies (#[trigger] m.row_spec(r)[j]).wf() by {
        assert(m.row_spec(r)[j] == m.values@[r * m.width + j]);
    }
}

} // verus!
