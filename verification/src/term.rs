//! What an expression means, apart from any arithmetic.
//!
//! The stack machine is run on terms in place of numbers: a literal pushes
//! itself, an operator replaces the two topmost terms by their combination.
//! The term that is left says which operation is applied to which operands,
//! and so fixes the value in every numeric domain.

use vstd::prelude::*;
use crate::error::{EvalError, Failure};
use crate::lexer::tokens_of;
use crate::token::{kind_of, lemma_operator_token, Operator, TokenKind};

verus! {

/// An arithmetic expression as a tree.
pub enum Term {
    /// A decimal literal, by its text.
    Literal(Seq<char>),
    /// An operator applied to a left and a right operand.
    Binary(Operator, Box<Term>, Box<Term>),
}

impl Term {
    /// The tokens of the term in postfix order: the left operand, the right
    /// operand, then the operator's symbol.
    pub open spec fn postfix(self) -> Seq<Seq<char>>
        decreases self,
    {
        match self {
            Term::Literal(text) => seq![text],
            Term::Binary(op, left, right) => left.postfix() + right.postfix()
                + seq![seq![op.spec_symbol()]],
        }
    }

    /// Every leaf of the term is the text of a decimal literal.
    pub open spec fn well_formed(self) -> bool
        decreases self,
    {
        match self {
            Term::Literal(text) => kind_of(text) == TokenKind::Literal,
            Term::Binary(_, left, right) => left.well_formed() && right.well_formed(),
        }
    }
}

/// The stack after one token. A literal is pushed. An operator takes the two
/// topmost terms, the upper one as its right operand, and pushes their
/// combination; with fewer than two terms it fails.
pub open spec fn step(stack: Seq<Term>, token: Seq<char>) -> Result<Seq<Term>, Failure> {
    match kind_of(token) {
        TokenKind::Literal => Ok(stack.push(Term::Literal(token))),
        TokenKind::Operator(op) => if stack.len() < 2 {
            Err(Failure::StackUnderflow)
        } else {
            Ok(
                stack.take(stack.len() - 2).push(
                    Term::Binary(
                        op,
                        Box::new(stack[stack.len() - 2]),
                        Box::new(stack[stack.len() - 1]),
                    ),
                ),
            )
        },
        TokenKind::Unrecognized => Err(Failure::UnrecognizedOperator(token)),
    }
}

/// The stack after `tokens`, taken from left to right, starting from `stack`.
/// The first failure ends the run.
pub open spec fn run(stack: Seq<Term>, tokens: Seq<Seq<char>>) -> Result<Seq<Term>, Failure>
    decreases tokens.len(),
{
    if tokens.len() == 0 {
        Ok(stack)
    } else {
        match run(stack, tokens.drop_last()) {
            Ok(before) => step(before, tokens.last()),
            Err(failure) => Err(failure),
        }
    }
}

/// What a sequence of tokens amounts to: the one term that a run from the
/// empty stack leaves, or the reason why there is none.
pub open spec fn outcome(tokens: Seq<Seq<char>>) -> Result<Term, Failure> {
    match run(Seq::empty(), tokens) {
        Ok(stack) => if stack.len() == 0 {
            Err(Failure::EmptyResult)
        } else if stack.len() == 1 {
            Ok(stack[0])
        } else {
            Err(Failure::MalformedExpression)
        },
        Err(failure) => Err(failure),
    }
}

/// What the text of an expression amounts to.
pub open spec fn meaning(expression: Seq<char>) -> Result<Term, Failure> {
    outcome(tokens_of(expression))
}

/// `value` is a value of `term` under the given arithmetic: `literal` may
/// return the value of each leaf from its text, and `apply` the value of each
/// inner node from its operator and the values of its operands, left one first.
pub open spec fn denotes<V, L: Fn(&str) -> V, A: Fn(Operator, V, V) -> V>(
    term: Term,
    value: V,
    literal: L,
    apply: A,
) -> bool
    decreases term,
{
    match term {
        Term::Literal(text) => exists|token: &str|
            token@ == text && #[trigger] literal.ensures((token,), value),
        Term::Binary(op, left, right) => exists|x: V, y: V|
            {
                &&& denotes(*left, x, literal, apply)
                &&& denotes(*right, y, literal, apply)
                &&& #[trigger] apply.ensures((op, x, y), value)
            },
    }
}

/// `result` is what evaluating `expression` under the given arithmetic may
/// return: a value of the term that the expression amounts to, or the failure
/// that it amounts to.
pub open spec fn is_result_of<V, L: Fn(&str) -> V, A: Fn(Operator, V, V) -> V>(
    result: Result<V, EvalError>,
    expression: Seq<char>,
    literal: L,
    apply: A,
) -> bool {
    match meaning(expression) {
        Ok(term) => result matches Ok(value) && denotes(term, value, literal, apply),
        Err(failure) => result matches Err(error) && error@ == failure,
    }
}

/// The values of a literal are those that `literal` may return for its text.
pub proof fn lemma_denotes_literal<V, L: Fn(&str) -> V, A: Fn(Operator, V, V) -> V>(
    text: Seq<char>,
    value: V,
    literal: L,
    apply: A,
)
    ensures
        denotes(Term::Literal(text), value, literal, apply) <==> exists|token: &str|
            token@ == text && #[trigger] literal.ensures((token,), value),
{
}

/// The values of a combination are those that `apply` may return for the
/// operator, a value of the left operand and a value of the right operand,
/// in this order.
pub proof fn lemma_denotes_binary<V, L: Fn(&str) -> V, A: Fn(Operator, V, V) -> V>(
    op: Operator,
    left: Term,
    right: Term,
    value: V,
    literal: L,
    apply: A,
)
    ensures
        denotes(Term::Binary(op, Box::new(left), Box::new(right)), value, literal, apply)
            <==> exists|x: V, y: V|
            {
                &&& denotes(left, x, literal, apply)
                &&& denotes(right, y, literal, apply)
                &&& #[trigger] apply.ensures((op, x, y), value)
            },
{
}

/// The tokens of the terms of a stack in postfix order, the bottom term
/// first.
pub open spec fn flattened(stack: Seq<Term>) -> Seq<Seq<char>>
    decreases stack.len(),
{
    if stack.len() == 0 {
        Seq::empty()
    } else {
        flattened(stack.drop_last()) + stack.last().postfix()
    }
}

/// One more token extends a run by one step.
pub proof fn lemma_run_push(stack: Seq<Term>, tokens: Seq<Seq<char>>, token: Seq<char>)
    ensures
        run(stack, tokens.push(token)) == match run(stack, tokens) {
            Ok(before) => step(before, token),
            Err(failure) => Err(failure),
        },
{
    assert(tokens.push(token).drop_last() == tokens);
}

/// A run over a single token is one step.
pub proof fn lemma_run_one(stack: Seq<Term>, token: Seq<char>)
    ensures
        run(stack, seq![token]) == step(stack, token),
{
    let none = Seq::<Seq<char>>::empty();
    assert(none.push(token) == seq![token]);
    assert(run(stack, none) == Ok::<Seq<Term>, Failure>(stack));
    lemma_run_push(stack, none, token);
}

/// A run that has failed on a prefix of the tokens fails on all of them, in
/// the same way.
pub proof fn lemma_run_failure_lasts(stack: Seq<Term>, tokens: Seq<Seq<char>>, n: int)
    requires
        0 <= n <= tokens.len(),
        run(stack, tokens.take(n)) is Err,
    ensures
        run(stack, tokens) == run(stack, tokens.take(n)),
    decreases tokens.len() - n,
{
    if n < tokens.len() {
        assert(tokens.take(n + 1).drop_last() == tokens.take(n));
        lemma_run_failure_lasts(stack, tokens, n + 1);
    } else {
        assert(tokens.take(n) == tokens);
    }
}

/// A run over two sequences of tokens, one after the other, is a run over
/// the first followed by a run over the second.
pub proof fn lemma_run_concat(stack: Seq<Term>, first: Seq<Seq<char>>, second: Seq<Seq<char>>)
    ensures
        run(stack, first + second) == match run(stack, first) {
            Ok(between) => run(between, second),
            Err(failure) => Err(failure),
        },
    decreases second.len(),
{
    if second.len() == 0 {
        assert(first + second == first);
    } else {
        assert((first + second).drop_last() == first + second.drop_last());
        lemma_run_concat(stack, first, second.drop_last());
    }
}

/// A run over the postfix form of a term pushes that term and does nothing
/// else.
pub proof fn lemma_run_postfix(stack: Seq<Term>, term: Term)
    requires
        term.well_formed(),
    ensures
        run(stack, term.postfix()) == Ok::<Seq<Term>, Failure>(stack.push(term)),
    decreases term,
{
    match term {
        Term::Literal(text) => {
            lemma_run_one(stack, text);
        },
        Term::Binary(op, left, right) => {
            let symbol = seq![op.spec_symbol()];
            lemma_run_postfix(stack, *left);
            lemma_run_postfix(stack.push(*left), *right);
            lemma_run_concat(stack, left.postfix(), right.postfix());
            lemma_run_concat(stack, left.postfix() + right.postfix(), seq![symbol]);
            let operands = stack.push(*left).push(*right);
            lemma_run_one(operands, symbol);
            lemma_operator_token(symbol, op);
            assert(operands.take(operands.len() - 2) == stack);
        },
    }
}

/// What a run from the empty stack leaves, read in postfix order, is what
/// it has consumed; and every term left is well formed.
pub proof fn lemma_run_flattened(tokens: Seq<Seq<char>>)
    requires
        run(Seq::empty(), tokens) is Ok,
    ensures
        flattened(run(Seq::empty(), tokens)->Ok_0) == tokens,
        forall|k: int|
            0 <= k < run(Seq::empty(), tokens)->Ok_0.len() ==> (#[trigger] run(
                Seq::empty(),
                tokens,
            )->Ok_0[k]).well_formed(),
    decreases tokens.len(),
{
    let stack = run(Seq::empty(), tokens)->Ok_0;
    if tokens.len() == 0 {
    } else {
        let token = tokens.last();
        lemma_run_flattened(tokens.drop_last());
        let before = run(Seq::empty(), tokens.drop_last())->Ok_0;
        let n = before.len() as int;
        assert(tokens.drop_last().push(token) == tokens);
        match kind_of(token) {
            TokenKind::Literal => {
                assert(stack.drop_last() == before);
            },
            TokenKind::Operator(op) => {
                lemma_operator_token(token, op);
                let below = before.take(n - 2);
                assert(stack.drop_last() == below);
                assert(before.drop_last().drop_last() == below);
                assert(before.drop_last().last() == before[n - 2]);
                assert(flattened(before) == flattened(before.drop_last()) + before[n
                    - 1].postfix());
                assert(flattened(before.drop_last()) == flattened(below) + before[n
                    - 2].postfix());
                assert(stack.last().postfix() == before[n - 2].postfix() + before[n - 1].postfix()
                    + seq![token]);
                assert(flattened(stack) == flattened(below) + (before[n - 2].postfix() + before[n
                    - 1].postfix() + seq![token]));
                assert(flattened(stack) == flattened(before) + seq![token]);
            },
            TokenKind::Unrecognized => {},
        }
    }
}

/// The tokens that amount to a term are the postfix form of that term, and
/// no others: the notation is unambiguous.
pub proof fn lemma_outcome_is_postfix(tokens: Seq<Seq<char>>, term: Term)
    ensures
        outcome(tokens) == Ok::<Term, Failure>(term) <==> term.well_formed() && term.postfix()
            == tokens,
{
    if term.well_formed() && term.postfix() == tokens {
        lemma_run_postfix(Seq::empty(), term);
        assert(Seq::<Term>::empty().push(term)[0] == term);
    }
    if outcome(tokens) == Ok::<Term, Failure>(term) {
        lemma_run_flattened(tokens);
        let stack = run(Seq::empty(), tokens)->Ok_0;
        assert(stack.drop_last() == Seq::<Term>::empty());
        assert(flattened(Seq::<Term>::empty()) == Seq::<Seq<char>>::empty());
        assert(flattened(stack) == Seq::<Seq<char>>::empty() + term.postfix());
    }
}

} // verus!
