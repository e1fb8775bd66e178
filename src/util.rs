use vstd::arithmetic::power2::*;
use vstd::prelude::*;

verus! {

/// `log2(n)` for a power of two `n`.
pub fn log2_strict_usize(n: usize) -> (k: usize)
    requires
        exists|e: nat| pow2(e) == n,
    ensures
        pow2(k as nat) == n,
        k < 64,
{
    let ghost e0 = choose|e: nat| pow2(e) == n;
    let mut m: usize = 1;
    let mut k: usize = 0;
    proof {
        lemma2_to64();
        lemma2_to64_rest();
        lemma_pow2_pos(e0);
        if e0 > 64 {
            lemma_pow2_strictly_increases(64, e0);
        }
    }
    while m < n
        invariant
            m as nat == pow2(k as nat),
            m <= n,
            pow2(e0) == n,
            e0 < 64,
            k <= e0,
        decreases e0 - k,
    {
        proof {
            if k >= e0 {
                if k > e0 {
                    lemma_pow2_strictly_increases(e0, k as nat);
                }
            }
            assert(k < e0);
            lemma_pow2_unfold((k + 1) as nat);
            if k + 1 < e0 {
                lemma_pow2_strictly_increases((k + 1) as nat, e0);
            }
        }
        m = m * 2;
        k = k + 1;
    }
    k
}

} // verus!
