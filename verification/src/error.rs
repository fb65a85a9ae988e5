//! The ways in which an evaluation fails.

use vstd::prelude::*;

verus! {

/// Why an expression has no value.
#[derive(Debug, PartialEq, Eq)]
pub enum EvalError {
    /// A token is neither a decimal literal nor an operator symbol. Holds the
    /// token.
    UnrecognizedOperator(String),
    /// An operator stands where fewer than two operands are on the stack.
    StackUnderflow,
    /// All tokens are consumed and the stack is empty.
    EmptyResult,
    /// All tokens are consumed and more than one value is on the stack.
    MalformedExpression,
}

/// An [`EvalError`] as contracts speak of it: the token is a sequence of
/// characters.
pub enum Failure {
    UnrecognizedOperator(Seq<char>),
    StackUnderflow,
    EmptyResult,
    MalformedExpression,
}

impl Failure {
    /// The text that describes the failure.
    pub open spec fn message(self) -> Seq<char> {
        match self {
            Failure::UnrecognizedOperator(token) => "unrecognized operator: "@ + token,
            Failure::StackUnderflow => "stack underflow: an operator needs two operands"@,
            Failure::EmptyResult => "empty result: the expression leaves no value"@,
            Failure::MalformedExpression => "malformed expression: more than one value is left"@,
        }
    }
}

impl View for EvalError {
    type V = Failure;

    open spec fn view(&self) -> Failure {
        match self {
            EvalError::UnrecognizedOperator(token) => Failure::UnrecognizedOperator(token@),
            EvalError::StackUnderflow => Failure::StackUnderflow,
            EvalError::EmptyResult => Failure::EmptyResult,
            EvalError::MalformedExpression => Failure::MalformedExpression,
        }
    }
}

impl EvalError {
    /// A description that names the failing condition and, for an
    /// unrecognized token, the token.
    pub fn message(&self) -> (text: String)
        ensures
            text@ == self@.message(),
    {
        match self {
            EvalError::UnrecognizedOperator(token) => {
                let mut text = String::from_str("unrecognized operator: ");
                text.append(token.as_str());
                text
            },
            EvalError::StackUnderflow => String::from_str(
                "stack underflow: an operator needs two operands",
            ),
            EvalError::EmptyResult => String::from_str(
                "empty result: the expression leaves no value",
            ),
            EvalError::MalformedExpression => String::from_str(
                "malformed expression: more than one value is left",
            ),
        }
    }
}

} // verus!
