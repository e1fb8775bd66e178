use vstd::prelude::*;

verus! {

/// A code, or a family of codes, that encodes a batch of messages at once.
pub trait CodeOrFamily<In> {
    type Out;

    /// What encoding `messages` gives.
    spec fn encoded(&self, messages: In) -> Self::Out;

    fn encode_batch(&self, messages: In) -> (r: Self::Out)
        ensures
            r == self.encoded(messages),
    ;
}

/// A single code, with fixed message and codeword lengths.
pub trait Code<In>: CodeOrFamily<In> {
    spec fn message_len_spec(&self) -> nat;

    spec fn codeword_len_spec(&self) -> nat;

    fn message_len(&self) -> (r: usize)
        ensures
            r == self.message_len_spec(),
    ;

    fn codeword_len(&self) -> (r: usize)
        ensures
            r == self.codeword_len_spec(),
    ;
}

/// A linear code.
pub trait LinearCode<In>: Code<In> {

}

/// A family of codes.
pub trait CodeFamily<In>: CodeOrFamily<In> {

}

/// A systematic code, or a family thereof: the message stands in the codeword as it is.
pub trait SystematicCodeOrFamily<In>: CodeOrFamily<In> {

}

/// A systematic code.
pub trait SystematicCode<In>: SystematicCodeOrFamily<In> + Code<In> {
    /// How many symbols of a codeword are not message symbols.
    fn parity_len(&self) -> (r: usize)
        requires
            self.message_len_spec() <= self.codeword_len_spec(),
        ensures
            r == self.codeword_len_spec() - self.message_len_spec(),
    {
        self.codeword_len() - self.message_len()
    }
}

/// A systematic linear code.
pub trait SystematicLinearCode<In>: SystematicCode<In> + LinearCode<In> {

}

/// A family of systematic codes.
pub trait SystematicCodeFamily<In>: SystematicCodeOrFamily<In> + CodeFamily<In> {

}

/// The trivial code whose encoder is the identity function.
pub struct IdentityCode {
    pub len: usize,
}

impl<In> CodeOrFamily<In> for IdentityCode {
    type Out = In;

    open spec fn encoded(&self, messages: In) -> In {
        messages
    }

    fn encode_batch(&self, messages: In) -> (r: In) {
        messages
    }
}

impl<In> Code<In> for IdentityCode {
    open spec fn message_len_spec(&self) -> nat {
        self.len as nat
    }

    open spec fn codeword_len_spec(&self) -> nat {
        self.len as nat
    }

    fn message_len(&self) -> (r: usize) {
        self.len
    }

    fn codeword_len(&self) -> (r: usize) {
        self.len
    }
}

impl<In> SystematicCodeOrFamily<In> for IdentityCode {

}

impl<In> SystematicCode<In> for IdentityCode {

}

impl<In> LinearCode<In> for IdentityCode {

}

impl<In> SystematicLinearCode<In> for IdentityCode {

}

} // verus!
