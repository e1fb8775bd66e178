use crate::field::{p, Felt};
use crate::fri::{f_add, f_mul, f_sub};
use crate::quotient::Selectors;
use crate::stark::Air;
use vstd::prelude::*;

verus! {

/// The canonical value of `x`.
pub open spec fn cv(x: Felt) -> int {
    x.val as int % p()
}

/// A two-column computation `(a, b)`: the first row holds the first two public values, and
/// each next row is `(b, a + b)`, so column 0 runs through the Fibonacci sequence.
pub struct FibonacciAir;

impl Air for FibonacciAir {
    /// Each constraint is a selector times a linear form.
    open spec fn max_degree(&self) -> nat {
        2
    }

    fn constraint_degree(&self) -> (r: usize) {
        2
    }

    open spec fn constraints(&self, local: Seq<Felt>, next: Seq<Felt>, public_values: Seq<Felt>, sels: Selectors) -> Seq<Felt> {
        if local.len() < 2 || next.len() < 2 || public_values.len() < 2 {
            Seq::empty()
        } else {
            seq![
                Felt { val: f_mul(cv(sels.is_first_row), f_sub(cv(local[0]), cv(public_values[0]))) as u32 },
                Felt { val: f_mul(cv(sels.is_first_row), f_sub(cv(local[1]), cv(public_values[1]))) as u32 },
                Felt { val: f_mul(cv(sels.is_transition), f_sub(cv(next[0]), cv(local[1]))) as u32 },
                Felt {
                    val: f_mul(cv(sels.is_transition), f_sub(cv(next[1]), f_add(cv(local[0]), cv(local[1]))))
                        as u32,
                },
            ]
        }
    }

    fn eval(&self, local: &Vec<Felt>, next: &Vec<Felt>, public_values: &Vec<Felt>, sels: &Selectors) -> (r: Vec<Felt>) {
        if local.len() < 2 || next.len() < 2 || public_values.len() < 2 {
            return Vec::new();
        }
        let a = Felt::from_u64(local[0].val as u64);
        let b = Felt::from_u64(local[1].val as u64);
        let na = Felt::from_u64(next[0].val as u64);
        let nb = Felt::from_u64(next[1].val as u64);
        let p0 = Felt::from_u64(public_values[0].val as u64);
        let p1 = Felt::from_u64(public_values[1].val as u64);
        let first = Felt::from_u64(sels.is_first_row.val as u64);
        let trans = Felt::from_u64(sels.is_transition.val as u64);
        let r = vec![first.mul(a.sub(p0)), first.mul(b.sub(p1)), trans.mul(na.sub(b)), trans.mul(nb.sub(a.add(b)))];
        proof {
            assert(r@ =~= self.constraints(local@, next@, public_values@, *sels));
        }
        r
    }
}

} // verus!
