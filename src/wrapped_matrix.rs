use crate::matrix::{lemma_row_in_bounds, RowMajorMatrix};
use vstd::arithmetic::div_mod::*;
use vstd::arithmetic::mul::*;
use vstd::prelude::*;

verus! {

/// A view of a matrix whose rows are cut into `wraps` equal bands laid side by side:
/// row `r` of the view is rows `r`, `r + h`, `r + 2h`, ... of the inner matrix joined
/// together, where `h` is the height of one band.
pub struct WrappedMatrix<T> {
    pub inner: RowMajorMatrix<T>,
    pub wraps: usize,
}

impl<T: Copy> WrappedMatrix<T> {
    pub open spec fn wf(&self) -> bool {
        &&& self.inner.wf()
        &&& self.wraps > 0
        &&& self.inner.height_spec() % (self.wraps as nat) == 0
        &&& self.inner.width * self.wraps <= usize::MAX
    }

    pub open spec fn width_spec(&self) -> nat {
        (self.inner.width * self.wraps) as nat
    }

    pub open spec fn height_spec(&self) -> nat {
        self.inner.height_spec() / (self.wraps as nat)
    }

    /// Entry `j` of row `r` of the view.
    pub open spec fn at(&self, r: int, j: int) -> T {
        self.inner.at(r + (j / self.inner.width as int) * self.height_spec(), j % self.inner.width as int)
    }

    /// Wraps `inner` into `wraps` bands; its height must be a multiple of `wraps`.
    pub fn new(inner: RowMajorMatrix<T>, wraps: usize) -> (m: Self)
        requires
            inner.wf(),
            wraps > 0,
            inner.height_spec() % (wraps as nat) == 0,
            inner.width * wraps <= usize::MAX,
        ensures
            m.wf(),
            m.inner == inner,
            m.wraps == wraps,
    {
        WrappedMatrix { inner, wraps }
    }

    pub fn width(&self) -> (r: usize)
        requires
            self.wf(),
        ensures
            r == self.width_spec(),
    {
        self.inner.width() * self.wraps
    }

    pub fn height(&self) -> (r: usize)
        requires
            self.wf(),
        ensures
            r == self.height_spec(),
    {
        self.inner.height() / self.wraps
    }

    /// Row `r` of the view.
    pub fn row(&self, r: usize) -> (out: Vec<T>)
        requires
            self.wf(),
            r < self.height_spec(),
        ensures
            out@.len() == self.width_spec(),
            forall|j: int| 0 <= j < out@.len() ==> #[trigger] out@[j] == self.at(r as int, j),
    {
        let w = self.inner.width();
        let h = self.height();
        let total = self.inner.height();
        proof {
            lemma_fundamental_div_mod(total as int, self.wraps as int);
            lemma_mul_is_commutative(self.wraps as int, h as int);
        }
        let mut out: Vec<T> = Vec::new();
        let mut k: usize = 0;
        let mut kh: usize = 0;
        while k < self.wraps
            invariant
                self.wf(),
                w == self.inner.width,
                h == self.height_spec(),
                h * self.wraps == total,
                total == self.inner.height_spec(),
                r < h,
                k <= self.wraps,
                kh == k * h,
                out@.len() == k * w,
                forall|j: int| 0 <= j < out@.len() ==> #[trigger] out@[j] == self.at(r as int, j),
            decreases self.wraps - k,
        {
            proof {
                lemma_mul_inequality(k as int + 1, self.wraps as int, h as int);
                lemma_mul_is_distributive_add_other_way(h as int, k as int, 1);
                lemma_mul_is_commutative(h as int, self.wraps as int);
                lemma_mul_is_commutative(h as int, k as int);
                lemma_mul_is_commutative(h as int, k as int + 1);
            }
            let idx = kh + r;
            let mut band = self.inner.row(idx);
            proof {
                lemma_mul_is_distributive_add_other_way(w as int, idx as int, 1);
                lemma_mul_is_commutative(w as int, idx as int);
                lemma_row_in_bounds(self.inner.values@.len() as int, w as int, idx as int);
                assert(band@.len() == w);
            }
            let ghost before = out@;
            let ghost band0 = band@;
            out.append(&mut band);
            proof {
                lemma_mul_is_distributive_add_other_way(w as int, k as int, 1);
                lemma_mul_is_commutative(w as int, k as int);
                lemma_mul_is_commutative(w as int, k as int + 1);
                assert forall|j: int| 0 <= j < out@.len() implies #[trigger] out@[j] == self.at(
                    r as int,
                    j,
                ) by {
                    if j >= before.len() {
                        let c = j - k * w;
                        assert(0 <= c < w);
                        lemma_fundamental_div_mod_converse(j, w as int, k as int, c);
                        lemma_mul_is_commutative(w as int, idx as int);
                        lemma_mul_is_commutative(k as int, w as int);
                        assert(j / (w as int) == k);
                        assert(out@[j] == band0[c]);
                    }
                }
            }
            k = k + 1;
            kh = kh + h;
        }
        proof {
            lemma_mul_is_commutative(w as int, self.wraps as int);
        }
        out
    }
}


/// A cursor over one row of a `WrappedMatrix`, handing out its entries in order.
pub struct WrappedMatrixRow<T> {
    pub entries: Vec<T>,
    pub pos: usize,
}

impl<T: Copy> WrappedMatrixRow<T> {
    /// The entries not yet handed out.
    pub open spec fn remaining(&self) -> Seq<T> {
        self.entries@.subrange(self.pos as int, self.entries@.len() as int)
    }

    pub open spec fn wf(&self) -> bool {
        self.pos <= self.entries@.len()
    }

    /// The next entry of the row, or `None` once all have been handed out.
    pub fn next(&mut self) -> (r: Option<T>)
        requires
            old(self).wf(),
        ensures
            final(self).wf(),
            final(self).entries@ == old(self).entries@,
            old(self).remaining().len() == 0 ==> r.is_none() && final(self).pos == old(self).pos,
            old(self).remaining().len() > 0 ==> r == Some(old(self).remaining()[0])
                && final(self).remaining() == old(self).remaining().drop_first(),
    {
        if self.pos < self.entries.len() {
            let v = self.entries[self.pos];
            self.pos = self.pos + 1;
            proof {
                assert(self.remaining() =~= old(self).remaining().drop_first());
            }
            Some(v)
        } else {
            None
        }
    }
}

impl<T: Copy> WrappedMatrix<T> {
    /// A cursor over row `r` of the view, starting at its first entry.
    pub fn row_iter(&self, r: usize) -> (it: WrappedMatrixRow<T>)
        requires
            self.wf(),
            r < self.height_spec(),
        ensures
            it.wf(),
            it.remaining().len() == self.width_spec(),
            forall|j: int| 0 <= j < it.remaining().len() ==> #[trigger] it.remaining()[j] == self.at(r as int, j),
    {
        let entries = self.row(r);
        let it = WrappedMatrixRow { entries, pos: 0 };
        proof {
            assert(it.remaining() =~= it.entries@);
        }
        it
    }
}

} // verus!
