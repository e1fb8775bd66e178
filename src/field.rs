use vstd::arithmetic::div_mod::*;
use vstd::arithmetic::mul::*;
use vstd::arithmetic::power::*;
use vstd::arithmetic::power2::*;
use vstd::prelude::*;

verus! {

/// The prime `15 * 2^27 + 1`, whose multiplicative group has a subgroup of order `2^27`.
pub const MODULUS: u32 = 2013265921;

/// The largest `k` for which the field has a multiplicative subgroup of order `2^k`.
pub const TWO_ADICITY: usize = 27;

/// A generator of the multiplicative subgroup of order `2^27`.
pub const TWO_ADIC_GENERATOR: u32 = 440564289;

/// A generator of the whole multiplicative group, used to shift evaluation domains off the
/// trace subgroup.
pub const GENERATOR: u32 = 31;

pub open spec fn p() -> int {
    MODULUS as int
}

/// An element of the prime field, held as its canonical representative.
#[derive(Clone, Copy, Debug, PartialEq, Eq)]
pub struct Felt {
    pub val: u32,
}

impl Felt {
    pub open spec fn wf(self) -> bool {
        self.val < MODULUS
    }

}

/// `a^e mod p`.
pub open spec fn exp_mod(a: int, e: nat) -> int {
    pow(a, e) % p()
}

/// The multiplicative inverse as Fermat's little theorem gives it: `a^(p-2) mod p`.
pub open spec fn inv_mod(a: int) -> int {
    exp_mod(a, (p() - 2) as nat)
}

/// The generator of the subgroup of order `2^bits`.
pub open spec fn two_adic_gen(bits: nat) -> int {
    exp_mod(TWO_ADIC_GENERATOR as int, pow2((TWO_ADICITY - bits) as nat))
}

impl Felt {

pub fn zero() -> (r: Felt)
    ensures
        r.wf(),
        r.val == 0,
{
    Felt { val: 0 }
}

pub fn one() -> (r: Felt)
    ensures
        r.wf(),
        r.val == 1,
{
    Felt { val: 1 }
}

/// The field element congruent to `v`.
pub fn from_u64(v: u64) -> (r: Felt)
    ensures
        r.wf(),
        r.val == v as int % p(),
{
    Felt { val: (v % (MODULUS as u64)) as u32 }
}

pub fn add(self, b: Felt) -> (r: Felt)
    requires
        self.wf(),
        b.wf(),
    ensures
        r.wf(),
        r.val == (self.val + b.val) % p(),
{
    let s: u64 = self.val as u64 + b.val as u64;
    if s >= MODULUS as u64 {
        proof {
            lemma_fundamental_div_mod_converse_mod(s as int, p(), 1, s - p());
        }
        Felt { val: (s - MODULUS as u64) as u32 }
    } else {
        proof {
            lemma_small_mod(s as nat, p() as nat);
        }
        Felt { val: s as u32 }
    }
}

pub fn sub(self, b: Felt) -> (r: Felt)
    requires
        self.wf(),
        b.wf(),
    ensures
        r.wf(),
        r.val == (self.val - b.val) % p(),
{
    if self.val >= b.val {
        proof {
            lemma_small_mod((self.val - b.val) as nat, p() as nat);
        }
        Felt { val: self.val - b.val }
    } else {
        let d: u32 = MODULUS - b.val + self.val;
        proof {
            lemma_fundamental_div_mod_converse_mod(self.val - b.val, p(), -1, d as int);
        }
        Felt { val: d }
    }
}

pub fn neg(self) -> (r: Felt)
    requires
        self.wf(),
    ensures
        r.wf(),
        r.val == (0 - self.val) % p(),
{
    Felt::zero().sub(self)
}

pub fn mul(self, b: Felt) -> (r: Felt)
    requires
        self.wf(),
        b.wf(),
    ensures
        r.wf(),
        r.val == (self.val * b.val) % p(),
{
    proof {
        lemma_mul_upper_bound(self.val as int, p() - 1, b.val as int, p() - 1);
        assert((p() - 1) * (p() - 1) < 0x1_0000_0000_0000_0000) by (nonlinear_arith);
    }
    let m: u64 = self.val as u64 * b.val as u64;
    Felt { val: (m % (MODULUS as u64)) as u32 }
}

} // impl

proof fn lemma_exp_step(acc: int, base: int, e: nat)
    requires
        e > 0,
    ensures
        e % 2 == 1 ==> ((acc * base) % p()) * pow((base * base) % p(), e / 2) % p() == acc * pow(
            base,
            e,
        ) % p(),
        e % 2 == 0 ==> acc * pow((base * base) % p(), e / 2) % p() == acc * pow(base, e) % p(),
{
    let h = e / 2;
    lemma_pow_multiplies(base, 2, h);
    lemma_square_is_pow2(base);
    assert(pow(base, 2 * h) == pow(base * base, h));
    lemma_pow_mod_noop(base * base, h, p());
    lemma_mul_mod_noop_right(acc, pow(base * base, h), p());
    lemma_mul_mod_noop_right(acc, pow((base * base) % p(), h), p());
    if e % 2 == 1 {
        lemma_pow_adds(base, 2 * h, 1);
        lemma_pow1(base);
        assert(pow(base, e) == pow(base * base, h) * base);
        lemma_mul_mod_noop_left(acc * base, pow((base * base) % p(), h), p());
        lemma_mul_mod_noop_right(acc * base, pow((base * base) % p(), h), p());
        lemma_mul_mod_noop_right(acc * base, pow(base * base, h), p());
        lemma_mul_is_associative(acc, base, pow(base * base, h));
        lemma_mul_is_commutative(base, pow(base * base, h));
        lemma_mul_is_associative(acc, pow(base * base, h), base);
    } else {
        assert(e == 2 * h);
    }
}

impl Felt {

/// `a^e`, by repeated squaring.
pub fn exp_u64(self, e: u64) -> (r: Felt)
    requires
        self.wf(),
    ensures
        r.wf(),
        r.val == exp_mod(self.val as int, e as nat),
{
    let mut acc = Felt::one();
    let mut base = self;
    let mut k: u64 = e;
    proof {
        lemma_small_mod(self.val as nat, p() as nat);
        lemma_pow_mod_noop(self.val as int, e as nat, p());
    }
    while k > 0
        invariant
            acc.wf(),
            base.wf(),
            acc.val * pow(base.val as int, k as nat) % p() == exp_mod(self.val as int, e as nat),
        decreases k,
    {
        proof {
            lemma_exp_step(acc.val as int, base.val as int, k as nat);
        }
        if k % 2 == 1 {
            acc = acc.mul(base);
        }
        base = base.mul(base);
        k = k / 2;
    }
    proof {
        lemma_pow0(base.val as int);
        lemma_small_mod(acc.val as nat, p() as nat);
    }
    acc
}

/// The multiplicative inverse `a^(p-2)`; for nonzero `a` this is the `b` with `a * b = 1`.
pub fn inverse(self) -> (r: Felt)
    requires
        self.wf(),
    ensures
        r.wf(),
        r.val == inv_mod(self.val as int),
{
    self.exp_u64((MODULUS - 2) as u64)
}

/// `a / b`, that is `a * b^(p-2)`.
pub fn div(self, b: Felt) -> (r: Felt)
    requires
        self.wf(),
        b.wf(),
    ensures
        r.wf(),
        r.val == (self.val * inv_mod(b.val as int)) % p(),
{
    self.mul(b.inverse())
}

} // impl

/// The generator of the two-adic subgroup of order `2^bits`.
pub fn two_adic_generator(bits: usize) -> (r: Felt)
    requires
        bits <= TWO_ADICITY,
    ensures
        r.wf(),
        r.val == two_adic_gen(bits as nat),
{
    let g = Felt { val: TWO_ADIC_GENERATOR };
    let mut e: u64 = 1;
    let mut i: usize = bits;
    proof {
        reveal(pow2);
        lemma2_to64();
    }
    while i < TWO_ADICITY
        invariant
            bits <= i <= TWO_ADICITY,
            e == pow2((i - bits) as nat),
        decreases TWO_ADICITY - i,
    {
        proof {
            lemma_pow2_unfold((i - bits + 1) as nat);
            lemma2_to64();
            if i - bits < 26 {
                lemma_pow2_strictly_increases((i - bits) as nat, 26);
            }
        }
        e = e * 2;
        i = i + 1;
    }
    g.exp_u64(e)
}

} // verus!
