use vstd::arithmetic::div_mod::*;
use vstd::arithmetic::mul::*;
use vstd::prelude::*;

verus! {

/// A dense matrix stored row after row.
#[derive(Clone, Debug)]
pub struct RowMajorMatrix<T> {
    pub values: Vec<T>,
    pub width: usize,
}

/// Entry `(r, c)` of a matrix of width `w` stored row-major in `vals`.
pub open spec fn entry<T>(vals: Seq<T>, w: nat, r: int, c: int) -> T {
    vals[r * w + c]
}

impl<T: Copy> RowMajorMatrix<T> {
    pub open spec fn wf(&self) -> bool {
        self.width > 0 && self.values@.len() % (self.width as nat) == 0
    }

    pub open spec fn height_spec(&self) -> nat {
        self.values@.len() / (self.width as nat)
    }

    pub open spec fn at(&self, r: int, c: int) -> T {
        entry(self.values@, self.width as nat, r, c)
    }

    /// Row `r` as a sequence.
    pub open spec fn row_spec(&self, r: int) -> Seq<T> {
        self.values@.subrange(r * self.width, (r + 1) * self.width)
    }

    pub fn new(values: Vec<T>, width: usize) -> (m: Self)
        requires
            width > 0,
            values@.len() % (width as nat) == 0,
        ensures
            m.wf(),
            m.values@ == values@,
            m.width == width,
    {
        RowMajorMatrix { values, width }
    }

    /// A matrix with one column.
    pub fn new_col(values: Vec<T>) -> (m: Self)
        ensures
            m.wf(),
            m.values@ == values@,
            m.width == 1,
            m.height_spec() == values@.len(),
    {
        RowMajorMatrix { values, width: 1 }
    }

    pub fn width(&self) -> (r: usize)
        ensures
            r == self.width,
    {
        self.width
    }

    pub fn height(&self) -> (r: usize)
        requires
            self.wf(),
        ensures
            r == self.height_spec(),
    {
        self.values.len() / self.width
    }

    /// Row `r`, copied out.
    pub fn row(&self, r: usize) -> (out: Vec<T>)
        requires
            self.wf(),
            r < self.height_spec(),
        ensures
            out@ == self.row_spec(r as int),
    {
        let len = self.values.len();
        proof {
            lemma_row_in_bounds(self.values@.len() as int, self.width as int, r as int);
            lemma_mul_is_distributive_add_other_way(self.width as int, r as int, 1);
        }
        let start = r * self.width;
        let mut out: Vec<T> = Vec::new();
        let mut c: usize = 0;
        while c < self.width
            invariant
                self.wf(),
                r < self.height_spec(),
                start == r * self.width,
                len == self.values@.len(),
                start + self.width <= self.values@.len(),
                c <= self.width,
                out@ == self.values@.subrange(start as int, start + c),
            decreases self.width - c,
        {
            out.push(self.values[start + c]);
            c = c + 1;
            assert(out@ =~= self.values@.subrange(start as int, start + c));
        }
        out
    }

    /// Exchanges rows `a` and `b`.
    pub fn swap_rows(&mut self, a: usize, b: usize)
        requires
            old(self).wf(),
            a < old(self).height_spec(),
            b < old(self).height_spec(),
        ensures
            final(self).wf(),
            final(self).width == old(self).width,
            final(self).values@.len() == old(self).values@.len(),
            forall|r: int, c: int|
                0 <= r < old(self).height_spec() && 0 <= c < old(self).width ==>
                    #[trigger] final(self).at(r, c) == old(self).at(swapped(r, a as int, b as int), c),
            forall|k: int|
                0 <= k < old(self).values@.len() ==> 0 <= swapped_entry(
                    k,
                    a as int,
                    b as int,
                    old(self).width as int,
                ) < old(self).values@.len() && #[trigger] final(self).values@[k]
                    == old(self).values@[swapped_entry(k, a as int, b as int, old(self).width as int)],
    {
        let w = self.width;
        let len = self.values.len();
        proof {
            lemma_row_in_bounds(self.values@.len() as int, w as int, a as int);
            lemma_row_in_bounds(self.values@.len() as int, w as int, b as int);
            lemma_rows_apart(w as int, a as int, b as int);
        }
        let aw = a * w;
        let bw = b * w;
        let ghost orig = self.values@;
        let mut c: usize = 0;
        while c < w
            invariant
                w == self.width,
                w > 0,
                self.values@.len() == orig.len(),
                orig.len() == len,
                orig.len() % (w as nat) == 0,
                aw + w <= orig.len(),
                bw + w <= orig.len(),
                a != b ==> aw + w <= bw || bw + w <= aw,
                a == b ==> aw == bw,
                c <= w,
                forall|i: int|
                    0 <= i < orig.len() ==> #[trigger] self.values@[i] == if a == b {
                        orig[i]
                    } else if aw <= i < aw + c {
                        orig[i - aw + bw]
                    } else if bw <= i < bw + c {
                        orig[i - bw + aw]
                    } else {
                        orig[i]
                    },
            decreases w - c,
        {
            if a != b {
                let x = self.values[aw + c];
                let y = self.values[bw + c];
                self.values.set(aw + c, y);
                self.values.set(bw + c, x);
            }
            c = c + 1;
        }
        proof {
            assert forall|k: int| 0 <= k < orig.len() implies 0 <= swapped_entry(
                k,
                a as int,
                b as int,
                w as int,
            ) < orig.len() && #[trigger] self.values@[k] == orig[swapped_entry(
                k,
                a as int,
                b as int,
                w as int,
            )] by {
                lemma_rows_apart(w as int, a as int, b as int);
            }
            assert forall|r: int, c: int|
                0 <= r < orig.len() / (w as nat) && 0 <= c < w implies
                #[trigger] entry(self.values@, w as nat, r, c)
                    == entry(orig, w as nat, swapped(r, a as int, b as int), c) by {
                lemma_entry_index(orig.len() as int, w as int, r, c);
                lemma_rows_apart(w as int, r, a as int);
                lemma_rows_apart(w as int, r, b as int);
            }
        }
    }
}

/// Distinct rows occupy disjoint ranges of entries.
pub proof fn lemma_rows_apart(w: int, a: int, b: int)
    requires
        w > 0,
        a >= 0,
        b >= 0,
    ensures
        a != b ==> a * w + w <= b * w || b * w + w <= a * w,
        a == b ==> a * w == b * w,
{
    lemma_mul_is_distributive_add_other_way(w, a, 1);
    lemma_mul_is_distributive_add_other_way(w, b, 1);
    if a < b {
        lemma_mul_inequality(a + 1, b, w);
    }
    if b < a {
        lemma_mul_inequality(b + 1, a, w);
    }
}

/// Where entry `k` of a matrix of width `w` comes from after rows `a` and `b` are exchanged.
pub open spec fn swapped_entry(k: int, a: int, b: int, w: int) -> int {
    if a * w <= k < a * w + w {
        k - a * w + b * w
    } else if b * w <= k < b * w + w {
        k - b * w + a * w
    } else {
        k
    }
}

/// Where row `r` comes from after rows `a` and `b` are exchanged.
pub open spec fn swapped(r: int, a: int, b: int) -> int {
    if r == a {
        b
    } else if r == b {
        a
    } else {
        r
    }
}

/// Row `r` of a matrix with `len` entries and width `w` lies within the entries.
pub proof fn lemma_row_in_bounds(len: int, w: int, r: int)
    requires
        w > 0,
        len >= 0,
        len % w == 0,
        0 <= r < len / w,
    ensures
        (r + 1) * w <= len,
        r * w + w <= len,
{
    lemma_fundamental_div_mod(len, w);
    lemma_mul_inequality(r + 1, len / w, w);
    lemma_mul_is_distributive_add_other_way(w, r, 1);
    lemma_mul_is_commutative(w, len / w);
}

/// Entry `(r, c)` of such a matrix lies within the entries.
pub proof fn lemma_entry_index(len: int, w: int, r: int, c: int)
    requires
        w > 0,
        len >= 0,
        len % w == 0,
        0 <= r < len / w,
        0 <= c < w,
    ensures
        0 <= r * w + c < len,
        r * w <= r * w + c < r * w + w,
{
    lemma_row_in_bounds(len, w, r);
    lemma_mul_nonnegative(r, w);
}

} // verus!
