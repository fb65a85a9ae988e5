//! Operators and the classification of tokens.

use vstd::prelude::*;
use crate::lexer::characters;
use crate::lexer::{is_whitespace, is_word};
use crate::literal::{is_decimal_literal, is_digit, is_literal, lemma_literal_characters};

verus! {

/// One of the four binary operators.
#[derive(Clone, Copy, Debug, PartialEq, Eq, Hash, Structural)]
pub enum Operator {
    Add,
    Subtract,
    Multiply,
    Divide,
}

/// What a token is.
#[derive(Clone, Copy, Debug, PartialEq, Eq, Hash, Structural)]
pub enum TokenKind {
    /// A decimal literal.
    Literal,
    /// One of the four operator symbols.
    Operator(Operator),
    /// Neither of the two.
    Unrecognized,
}

/// The operator that the character `c` is the symbol of.
pub open spec fn operator_of_symbol(c: char) -> Option<Operator> {
    if c == '+' {
        Some(Operator::Add)
    } else if c == '-' {
        Some(Operator::Subtract)
    } else if c == '*' {
        Some(Operator::Multiply)
    } else if c == '/' {
        Some(Operator::Divide)
    } else {
        None
    }
}

/// The operator that `token` names: the token is its symbol and nothing more.
pub open spec fn operator_of(token: Seq<char>) -> Option<Operator> {
    if token.len() == 1 {
        operator_of_symbol(token[0])
    } else {
        None
    }
}

/// The kind of `token`. A token that is a literal is no operator: every
/// literal holds a digit.
pub open spec fn kind_of(token: Seq<char>) -> TokenKind {
    if is_decimal_literal(token) {
        TokenKind::Literal
    } else {
        match operator_of(token) {
            Some(op) => TokenKind::Operator(op),
            None => TokenKind::Unrecognized,
        }
    }
}

/// No token is both a decimal literal and an operator symbol.
pub proof fn lemma_literal_is_no_operator(token: Seq<char>)
    requires
        is_decimal_literal(token),
    ensures
        operator_of(token) is None,
{
    lemma_literal_characters(token);
    if token.len() == 1 {
        assert(is_digit(token[0]));
    }
}

/// A token names an operator exactly if it is that operator's symbol.
pub proof fn lemma_operator_token(token: Seq<char>, op: Operator)
    ensures
        operator_of(token) == Some(op) <==> token == seq![op.spec_symbol()],
        kind_of(token) == TokenKind::Operator(op) <==> token == seq![op.spec_symbol()],
{
    let symbol = seq![op.spec_symbol()];
    assert(operator_of(symbol) == Some(op));
    if operator_of(token) == Some(op) {
        assert(token =~= symbol);
    }
    if is_decimal_literal(token) {
        lemma_literal_is_no_operator(token);
    }
}

/// Literals and operator symbols are words: neither is empty or holds
/// whitespace.
pub proof fn lemma_recognized_is_word(token: Seq<char>)
    requires
        kind_of(token) != TokenKind::Unrecognized,
    ensures
        is_word(token),
{
    if is_decimal_literal(token) {
        lemma_literal_characters(token);
    }
}

impl Operator {
    /// The character that stands for this operator.
    pub open spec fn spec_symbol(self) -> char {
        match self {
            Operator::Add => '+',
            Operator::Subtract => '-',
            Operator::Multiply => '*',
            Operator::Divide => '/',
        }
    }

    /// The character that stands for this operator.
    #[verifier::when_used_as_spec(spec_symbol)]
    pub fn symbol(self) -> (c: char)
        ensures
            c == self.spec_symbol(),
            operator_of_symbol(c) == Some(self),
    {
        match self {
            Operator::Add => '+',
            Operator::Subtract => '-',
            Operator::Multiply => '*',
            Operator::Divide => '/',
        }
    }

    /// The operator that `token` names, if it names one.
    pub fn from_token(token: &str) -> (op: Option<Operator>)
        ensures
            op == operator_of(token@),
    {
        let chars = characters(token);
        operator_in(&chars)
    }
}

fn operator_in(chars: &Vec<char>) -> (op: Option<Operator>)
    ensures
        op == operator_of(chars@),
{
    if chars.len() != 1 {
        None
    } else if chars[0] == '+' {
        Some(Operator::Add)
    } else if chars[0] == '-' {
        Some(Operator::Subtract)
    } else if chars[0] == '*' {
        Some(Operator::Multiply)
    } else if chars[0] == '/' {
        Some(Operator::Divide)
    } else {
        None
    }
}

/// Classifies `token`: a decimal literal, else an operator symbol, else
/// unrecognized.
pub fn classify(token: &str) -> (kind: TokenKind)
    ensures
        kind == kind_of(token@),
{
    let chars = characters(token);
    if is_literal(&chars) {
        TokenKind::Literal
    } else {
        match operator_in(&chars) {
            Some(op) => TokenKind::Operator(op),
            None => TokenKind::Unrecognized,
        }
    }
}

} // verus!
