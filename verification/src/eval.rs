//! The stack evaluator.

use vstd::prelude::*;
use crate::error::{EvalError, Failure};
use crate::lexer::{texts, tokenize, tokens_of};
use crate::literal::is_decimal_literal;
use crate::term::{denotes, is_result_of, lemma_run_failure_lasts, run, step, Term};
use crate::token::{classify, Operator, TokenKind};

verus! {

/// Replaces the two topmost values of `stack` by `op` of them. The value
/// pushed last is the right operand, the one below it the left operand.
///
/// With fewer than two values on the stack this fails with
/// [`EvalError::StackUnderflow`] and leaves the stack as it was.
pub fn apply_binary<V, F: Fn(V, V) -> V>(stack: &mut Vec<V>, op: F) -> (result: Result<
    (),
    EvalError,
>)
    requires
        old(stack).len() >= 2 ==> op.requires(
            (old(stack)@[old(stack).len() - 2], old(stack)@[old(stack).len() - 1]),
        ),
    ensures
        match result {
            Ok(_) => {
                &&& old(stack).len() >= 2
                &&& final(stack).len() == old(stack).len() - 1
                &&& final(stack)@.drop_last() == old(stack)@.take(old(stack).len() - 2)
                &&& op.ensures(
                    (old(stack)@[old(stack).len() - 2], old(stack)@[old(stack).len() - 1]),
                    final(stack)@.last(),
                )
            },
            Err(error) => {
                &&& old(stack).len() < 2
                &&& error@ == Failure::StackUnderflow
                &&& final(stack)@ == old(stack)@
            },
        },
{
    if stack.len() < 2 {
        return Err(EvalError::StackUnderflow);
    }
    let y = stack.pop().unwrap();
    let x = stack.pop().unwrap();
    let z = op(x, y);
    stack.push(z);
    assert(stack@.drop_last() == old(stack)@.take(old(stack).len() - 2));
    Ok(())
}

/// Evaluates the expression in reverse Polish notation that `expression`
/// holds.
///
/// The text is split on whitespace. Each token that is a decimal literal is
/// handed to `literal` and the result pushed on a stack; each operator symbol
/// replaces the two topmost values by what `apply` returns for the operator,
/// the lower value and the upper value, in this order. The value of the
/// expression is the one value left at the end.
///
/// There is none, and the first of these that occurs is returned, where a
/// token is neither a literal nor an operator symbol
/// ([`EvalError::UnrecognizedOperator`] with that token), where an operator
/// finds fewer than two values ([`EvalError::StackUnderflow`]), and where at
/// the end the stack is empty ([`EvalError::EmptyResult`]) or holds more than
/// one value ([`EvalError::MalformedExpression`]).
pub fn evaluate<V, L, A>(expression: &str, literal: L, apply: A) -> (result: Result<V, EvalError>)
    where
        L: Fn(&str) -> V,
        A: Fn(Operator, V, V) -> V,
    requires
        forall|token: &str| is_decimal_literal(token@) ==> literal.requires((token,)),
        forall|op: Operator, x: V, y: V| apply.requires((op, x, y)),
    ensures
        is_result_of(result, expression@, literal, apply),
{
    let tokens = tokenize(expression);
    let ghost words = tokens_of(expression@);
    let mut stack: Vec<V> = Vec::new();
    let ghost mut terms: Seq<Term> = Seq::empty();
    let mut i: usize = 0;
    assert(words.take(0) == Seq::<Seq<char>>::empty());
    while i < tokens.len()
        invariant
            i <= tokens.len(),
            words == tokens_of(expression@),
            texts(tokens@) == words,
            run(Seq::empty(), words.take(i as int)) == Ok::<Seq<Term>, Failure>(terms),
            stack.len() == terms.len(),
            forall|k: int|
                0 <= k < stack.len() ==> denotes(terms[k], #[trigger] stack@[k], literal, apply),
            forall|token: &str| is_decimal_literal(token@) ==> literal.requires((token,)),
            forall|op: Operator, x: V, y: V| apply.requires((op, x, y)),
        decreases tokens.len() - i,
    {
        let token = tokens[i];
        let ghost before = stack@;
        let ghost n = stack.len() as int;
        proof {
            assert(words[i as int] == token@);
            assert(words.take(i + 1).drop_last() == words.take(i as int));
            assert(run(Seq::empty(), words.take(i + 1)) == step(terms, token@));
        }
        match classify(token) {
            TokenKind::Literal => {
                let value = literal(token);
                stack.push(value);
                proof {
                    let leaf = Term::Literal(token@);
                    assert(denotes(leaf, value, literal, apply));
                    terms = terms.push(leaf);
                    assert forall|k: int| 0 <= k < stack.len() implies denotes(
                        terms[k],
                        #[trigger] stack@[k],
                        literal,
                        apply,
                    ) by {
                        if k < n {
                            assert(stack@[k] == before[k]);
                        }
                    }
                }
            },
            TokenKind::Operator(op) => {
                let ghost callable = |x: V, y: V| apply.requires((op, x, y));
                let ghost produces = |x: V, y: V, z: V| apply.ensures((op, x, y), z);
                let combine = |x: V, y: V| -> (z: V)
                    requires
                        callable(x, y),
                    ensures
                        produces(x, y, z),
                    {
                        apply(op, x, y)
                    };
                match apply_binary(&mut stack, combine) {
                    Ok(_) => {
                        proof {
                            let combined = Term::Binary(
                                op,
                                Box::new(terms[n - 2]),
                                Box::new(terms[n - 1]),
                            );
                            assert(apply.ensures((op, before[n - 2], before[n - 1]), stack@.last()));
                            assert(denotes(combined, stack@.last(), literal, apply));
                            let below = terms.take(n - 2);
                            terms = below.push(combined);
                            assert forall|k: int| 0 <= k < stack.len() implies denotes(
                                terms[k],
                                #[trigger] stack@[k],
                                literal,
                                apply,
                            ) by {
                                if k < n - 2 {
                                    assert(stack@.drop_last()[k] == before.take(n - 2)[k]);
                                    assert(stack@[k] == before[k]);
                                    assert(terms[k] == below[k]);
                                }
                            }
                        }
                    },
                    Err(error) => {
                        proof {
                            lemma_run_failure_lasts(Seq::empty(), words, i + 1);
                        }
                        return Err(error);
                    },
                }
            },
            TokenKind::Unrecognized => {
                proof {
                    lemma_run_failure_lasts(Seq::empty(), words, i + 1);
                }
                return Err(EvalError::UnrecognizedOperator(String::from_str(token)));
            },
        }
        i += 1;
    }
    assert(words.take(i as int) == words);
    if stack.len() == 0 {
        Err(EvalError::EmptyResult)
    } else if stack.len() == 1 {
        Ok(stack.pop().unwrap())
    } else {
        Err(EvalError::MalformedExpression)
    }
}

} // verus!
