use vstd::prelude::*;

verus! {

/// Why a batch was abandoned. Every failure is final: nothing is retried
/// and nothing is committed once one of these is returned.
#[derive(Debug)]
pub enum CoreError {
    /// Malformed bytes, a wrong length or an unknown tag.
    Decode(&'static str),
    /// A rule of the market or an invariant of the book is violated.
    Invalid(&'static str),
    /// Division by zero or a result that does not fit in 256 bits.
    Math(&'static str),
    /// A signature is malformed, cannot be recovered or has the wrong signer.
    Signature(&'static str),
    /// A proof is missing, names another key or does not match the root.
    State(&'static str),
}

impl CoreError {
    /// The name of the error's kind, as it is shown to an operator.
    pub fn label(&self) -> (r: &'static str)
        ensures
            self is Decode ==> r@ == "decode error"@,
            self is Invalid ==> r@ == "invalid input"@,
            self is Math ==> r@ == "math error"@,
            self is Signature ==> r@ == "signature error"@,
            self is State ==> r@ == "state error"@,
    {
        match self {
            CoreError::Decode(_) => "decode error",
            CoreError::Invalid(_) => "invalid input",
            CoreError::Math(_) => "math error",
            CoreError::Signature(_) => "signature error",
            CoreError::State(_) => "state error",
        }
    }

    /// The short description the error carries.
    pub fn detail(&self) -> (r: &'static str)
        ensures
            self matches CoreError::Decode(m) ==> r == m,
            self matches CoreError::Invalid(m) ==> r == m,
            self matches CoreError::Math(m) ==> r == m,
            self matches CoreError::Signature(m) ==> r == m,
            self matches CoreError::State(m) ==> r == m,
    {
        match self {
            CoreError::Decode(m) => m,
            CoreError::Invalid(m) => m,
            CoreError::Math(m) => m,
            CoreError::Signature(m) => m,
            CoreError::State(m) => m,
        }
    }
}

} // verus!
