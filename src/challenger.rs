use crate::field::Felt;
use crate::fri_prover::{Challenger, Event};
use vstd::prelude::*;

verus! {

/// The number of field elements a sponge state holds.
pub const WIDTH: usize = 16;

/// How many of them are absorbed or squeezed per permutation.
pub const RATE: usize = 8;

/// A permutation of a sponge state of `WIDTH` field elements.
pub trait Permutation {
    fn permute(&self, state: Vec<Felt>) -> Vec<Felt>;
}

/// A duplex sponge over a permutation: absorbed elements overwrite the rate part of the
/// state, a permutation runs whenever the rate is full or a challenge is wanted after new
/// input, and challenges are read off the rate part of the permuted state. The interactions
/// so far are kept in `log`.
pub struct DuplexChallenger<P> {
    perm: P,
    state: Vec<Felt>,
    input: Vec<Felt>,
    output: Vec<Felt>,
    log: Ghost<Seq<Event<Vec<Felt>>>>,
}

impl<P> DuplexChallenger<P> {
    /// The state has `WIDTH` elements and fewer than `RATE` are waiting to be absorbed.
    #[verifier::type_invariant]
    spec fn wf(&self) -> bool {
        self.state@.len() == WIDTH && self.input@.len() < RATE
    }
}

impl<P: Permutation + Copy> DuplexChallenger<P> {
    /// A challenger with an all-zero state and nothing absorbed.
    pub fn new(perm: P) -> (r: Self)
        ensures
            r.transcript() == Seq::<Event<Vec<Felt>>>::empty(),
    {
        let mut state: Vec<Felt> = Vec::new();
        let mut i: usize = 0;
        while i < WIDTH
            invariant
                i <= WIDTH,
                state@.len() == i,
            decreases WIDTH - i,
        {
            state.push(Felt::zero());
            i = i + 1;
        }
        DuplexChallenger { perm, state, input: Vec::new(), output: Vec::new(), log: Ghost(Seq::empty()) }
    }

    /// Writes `inp` into the rate part of the state, permutes it, and refills the output.
    fn duplex_with(&mut self, inp: Vec<Felt>)
        requires
            inp@.len() <= RATE,
        ensures
            final(self).log == old(self).log,
    {
        proof {
            use_type_invariant(&*self);
        }
        let mut st = crate::commit_phase::copy_word(&self.state);
        let mut i: usize = 0;
        while i < inp.len()
            invariant
                st@.len() == WIDTH,
                inp@.len() <= RATE,
                i <= inp@.len(),
            decreases inp@.len() - i,
        {
            st.set(i, inp[i]);
            i = i + 1;
        }
        let permuted = self.perm.permute(st);
        let st2 = if permuted.len() == WIDTH {
            permuted
        } else {
            crate::commit_phase::copy_word(&self.state)
        };
        let mut out: Vec<Felt> = Vec::new();
        let mut j: usize = 0;
        while j < RATE
            invariant
                st2@.len() == WIDTH,
                j <= RATE,
                out@.len() == j,
            decreases RATE - j,
        {
            out.push(st2[j]);
            j = j + 1;
        }
        self.input = Vec::new();
        self.state = st2;
        self.output = out;
    }

    /// Absorbs one element, permuting when the rate is full.
    fn absorb(&mut self, x: Felt)
        ensures
            final(self).log == old(self).log,
    {
        proof {
            use_type_invariant(&*self);
        }
        self.output = Vec::new();
        let mut inp = crate::commit_phase::copy_word(&self.input);
        inp.push(x);
        if inp.len() == RATE {
            self.duplex_with(inp);
        } else {
            self.input = inp;
        }
    }

    /// Squeezes one element, permuting first if there is new input or nothing left to read.
    fn squeeze(&mut self) -> (r: Felt)
        ensures
            final(self).log == old(self).log,
    {
        proof {
            use_type_invariant(&*self);
        }
        if self.input.len() > 0 || self.output.len() == 0 {
            let inp = crate::commit_phase::copy_word(&self.input);
            self.duplex_with(inp);
        }
        proof {
            use_type_invariant(&*self);
        }
        let mut out = crate::commit_phase::copy_word(&self.output);
        let r = match out.pop() {
            Some(x) => x,
            None => Felt::zero(),
        };
        self.output = out;
        r
    }

    /// The low `bits` bits of a squeezed element.
    fn squeeze_bits(&mut self, bits: usize) -> (r: usize)
        ensures
            final(self).log == old(self).log,
    {
        let x = self.squeeze();
        if bits >= 31 {
            x.val as usize
        } else {
            proof {
                crate::fri::lemma_pow2_fits(bits as nat);
            }
            let (_, low) = crate::fri::split_bits(x.val as usize, bits);
            low
        }
    }

    /// A copy of the sponge, with an empty log.
    fn fork(&self) -> (r: Self) {
        proof {
            use_type_invariant(self);
        }
        DuplexChallenger {
            perm: self.perm,
            state: crate::commit_phase::copy_word(&self.state),
            input: crate::commit_phase::copy_word(&self.input),
            output: crate::commit_phase::copy_word(&self.output),
            log: Ghost(Seq::empty()),
        }
    }
}

impl<P: Permutation + Copy> Challenger<Vec<Felt>> for DuplexChallenger<P> {
    type Witness = Felt;

    closed spec fn transcript(&self) -> Seq<Event<Vec<Felt>>> {
        self.log@
    }

    fn observe_commitment(&mut self, c: &Vec<Felt>) {
        let mut i: usize = 0;
        while i < c.len()
            invariant
                self.log == old(self).log,
                i <= c@.len(),
            decreases c@.len() - i,
        {
            self.absorb(c[i]);
            i = i + 1;
        }
        proof {
            use_type_invariant(&*self);
        }
        self.log = Ghost(self.log@.push(Event::Commitment(*c)));
    }

    fn observe_element(&mut self, x: Felt) {
        self.absorb(x);
        proof {
            use_type_invariant(&*self);
        }
        self.log = Ghost(self.log@.push(Event::Element(x)));
    }

    fn sample_element(&mut self) -> (r: Felt) {
        let r = self.squeeze();
        proof {
            use_type_invariant(&*self);
        }
        self.log = Ghost(self.log@.push(Event::Sample(r)));
        r
    }

    fn sample_bits(&mut self, bits: usize) -> (r: usize) {
        let r = self.squeeze_bits(bits);
        proof {
            use_type_invariant(&*self);
        }
        self.log = Ghost(self.log@.push(Event::SampleBits(bits, r)));
        r
    }

    fn grind(&mut self, bits: usize) -> (w: Felt) {
        let mut candidate: u32 = 0;
        let mut found = Felt::zero();
        let mut searching = true;
        while searching && candidate < crate::field::MODULUS
            invariant
                self.log == old(self).log,
            decreases crate::field::MODULUS - candidate,
        {
            let w = Felt { val: candidate };
            let mut trial = self.fork();
            trial.absorb(w);
            if trial.squeeze_bits(bits) == 0 {
                found = w;
                searching = false;
            }
            candidate = candidate + 1;
        }
        self.absorb(found);
        let _ = self.squeeze_bits(bits);
        proof {
            use_type_invariant(&*self);
        }
        self.log = Ghost(self.log@.push(Event::Grind(bits)));
        found
    }
}

} // verus!
