//! What holds of every evaluation.

use vstd::prelude::*;
use crate::error::{EvalError, Failure};
use crate::lexer::{is_word, joined, lemma_tokens_of_joined, tokens_of};
use crate::literal::is_decimal_literal;
use crate::term::{
    denotes, is_result_of, lemma_outcome_is_postfix, lemma_run_failure_lasts, lemma_run_push,
    meaning, run, Term,
};
use crate::token::{kind_of, lemma_recognized_is_word, lemma_operator_token, Operator, TokenKind};

verus! {

/// The arithmetic returns one value for one input: `literal` for one text,
/// `apply` for one operator and one pair of operands.
pub open spec fn deterministic<V, L: Fn(&str) -> V, A: Fn(Operator, V, V) -> V>(
    literal: L,
    apply: A,
) -> bool {
    &&& forall|s: &str, t: &str, a: V, b: V|
        #![trigger literal.ensures((s,), a), literal.ensures((t,), b)]
        s@ == t@ && literal.ensures((s,), a) && literal.ensures((t,), b) ==> a == b
    &&& forall|op: Operator, x: V, y: V, a: V, b: V|
        #![trigger apply.ensures((op, x, y), a), apply.ensures((op, x, y), b)]
        apply.ensures((op, x, y), a) && apply.ensures((op, x, y), b) ==> a == b
}

/// The tokens of the postfix form of a well-formed term are words.
pub proof fn lemma_postfix_words(term: Term)
    requires
        term.well_formed(),
    ensures
        forall|i: int| 0 <= i < term.postfix().len() ==> is_word(#[trigger] term.postfix()[i]),
    decreases term,
{
    match term {
        Term::Literal(text) => {
            lemma_recognized_is_word(text);
        },
        Term::Binary(op, left, right) => {
            lemma_postfix_words(*left);
            lemma_postfix_words(*right);
            let symbol = seq![op.spec_symbol()];
            lemma_operator_token(symbol, op);
            lemma_recognized_is_word(symbol);
            let l = left.postfix();
            let r = right.postfix();
            assert forall|i: int| 0 <= i < term.postfix().len() implies is_word(
                #[trigger] term.postfix()[i],
            ) by {
                if i < l.len() {
                    assert(term.postfix()[i] == l[i]);
                } else if i < l.len() + r.len() {
                    assert(term.postfix()[i] == r[i - l.len()]);
                } else {
                    assert(term.postfix()[i] == symbol);
                }
            }
        },
    }
}

/// An expression amounts to a term exactly if its tokens are the postfix
/// form of that term and the leaves of the term are decimal literals. So
/// every expression that is well formed has a value, and which operation is
/// applied to which operands is read off the term.
pub proof fn lemma_meaning_is_postfix(expression: Seq<char>, term: Term)
    ensures
        meaning(expression) == Ok::<Term, Failure>(term) <==> term.well_formed() && term.postfix()
            == tokens_of(expression),
{
    lemma_outcome_is_postfix(tokens_of(expression), term);
}

/// The postfix form of a well-formed term, written with single spaces
/// between the tokens, is an expression that amounts to that term.
pub proof fn lemma_written_term_has_value(term: Term)
    requires
        term.well_formed(),
    ensures
        meaning(joined(term.postfix())) == Ok::<Term, Failure>(term),
{
    lemma_postfix_words(term);
    lemma_tokens_of_joined(term.postfix());
    lemma_outcome_is_postfix(term.postfix(), term);
}

/// Operands keep their order: in `left right op` the operator is applied to
/// the value of `left` as its first operand and to the value of `right` as
/// its second.
pub proof fn lemma_operand_order<V, L: Fn(&str) -> V, A: Fn(Operator, V, V) -> V>(
    left: Seq<char>,
    right: Seq<char>,
    op: Operator,
    value: V,
    literal: L,
    apply: A,
)
    requires
        is_decimal_literal(left),
        is_decimal_literal(right),
    ensures
        meaning(joined(seq![left, right, seq![op.spec_symbol()]])) == Ok::<Term, Failure>(
            Term::Binary(op, Box::new(Term::Literal(left)), Box::new(Term::Literal(right))),
        ),
        denotes(
            Term::Binary(op, Box::new(Term::Literal(left)), Box::new(Term::Literal(right))),
            value,
            literal,
            apply,
        ) <==> exists|x: V, y: V|
            {
                &&& denotes(Term::Literal(left), x, literal, apply)
                &&& denotes(Term::Literal(right), y, literal, apply)
                &&& #[trigger] apply.ensures((op, x, y), value)
            },
{
    let term = Term::Binary(op, Box::new(Term::Literal(left)), Box::new(Term::Literal(right)));
    assert(Term::Literal(left).postfix() == seq![left]);
    assert(Term::Literal(right).postfix() == seq![right]);
    assert(term.postfix() == seq![left, right, seq![op.spec_symbol()]]);
    assert(Term::Literal(left).well_formed());
    assert(Term::Literal(right).well_formed());
    lemma_written_term_has_value(term);
}

/// Evaluation is a function of the expression: under a deterministic
/// arithmetic two results for one expression are the same value or the same
/// failure.
pub proof fn lemma_evaluations_agree<V, L: Fn(&str) -> V, A: Fn(Operator, V, V) -> V>(
    expression: Seq<char>,
    first: Result<V, EvalError>,
    second: Result<V, EvalError>,
    literal: L,
    apply: A,
)
    requires
        deterministic(literal, apply),
        is_result_of(first, expression, literal, apply),
        is_result_of(second, expression, literal, apply),
    ensures
        match (first, second) {
            (Ok(a), Ok(b)) => a == b,
            (Err(e), Err(f)) => e@ == f@,
            _ => false,
        },
{
    if let Ok(term) = meaning(expression) {
        lemma_value_is_unique(term, first->Ok_0, second->Ok_0, literal, apply);
    }
}

/// Under a deterministic arithmetic a term has at most one value.
pub proof fn lemma_value_is_unique<V, L: Fn(&str) -> V, A: Fn(Operator, V, V) -> V>(
    term: Term,
    first: V,
    second: V,
    literal: L,
    apply: A,
)
    requires
        deterministic(literal, apply),
        denotes(term, first, literal, apply),
        denotes(term, second, literal, apply),
    ensures
        first == second,
    decreases term,
{
    match term {
        Term::Literal(text) => {
            let s = choose|token: &str|
                token@ == text && #[trigger] literal.ensures((token,), first);
            let t = choose|token: &str|
                token@ == text && #[trigger] literal.ensures((token,), second);
            assert(literal.ensures((s,), first) && literal.ensures((t,), second));
        },
        Term::Binary(op, left, right) => {
            let (x1, y1) = choose|x: V, y: V|
                {
                    &&& denotes(*left, x, literal, apply)
                    &&& denotes(*right, y, literal, apply)
                    &&& #[trigger] apply.ensures((op, x, y), first)
                };
            let (x2, y2) = choose|x: V, y: V|
                {
                    &&& denotes(*left, x, literal, apply)
                    &&& denotes(*right, y, literal, apply)
                    &&& #[trigger] apply.ensures((op, x, y), second)
                };
            lemma_value_is_unique(*left, x1, x2, literal, apply);
            lemma_value_is_unique(*right, y1, y2, literal, apply);
            assert(apply.ensures((op, x1, y1), first) && apply.ensures((op, x1, y1), second));
        },
    }
}

/// An operator that finds fewer than two values on the stack fails the
/// evaluation with a stack underflow, whatever follows it.
pub proof fn lemma_operator_without_operands(expression: Seq<char>, n: int)
    requires
        0 <= n < tokens_of(expression).len(),
        kind_of(tokens_of(expression)[n]) is Operator,
        run(Seq::empty(), tokens_of(expression).take(n)) matches Ok(stack) && stack.len() < 2,
    ensures
        meaning(expression) == Err::<Term, Failure>(Failure::StackUnderflow),
{
    let tokens = tokens_of(expression);
    assert(tokens.take(n).push(tokens[n]) == tokens.take(n + 1));
    lemma_run_push(Seq::empty(), tokens.take(n), tokens[n]);
    lemma_run_failure_lasts(Seq::empty(), tokens, n + 1);
}

/// An expression whose first token is an operator fails with a stack
/// underflow. An operator alone is the least such expression.
pub proof fn lemma_leading_operator(expression: Seq<char>)
    requires
        tokens_of(expression).len() > 0,
        kind_of(tokens_of(expression)[0]) is Operator,
    ensures
        meaning(expression) == Err::<Term, Failure>(Failure::StackUnderflow),
{
    let tokens = tokens_of(expression);
    assert(tokens.take(0) == Seq::<Seq<char>>::empty());
    assert(run(Seq::empty(), tokens.take(0)) == Ok::<Seq<Term>, Failure>(Seq::empty()));
    lemma_operator_without_operands(expression, 0);
}

/// The first token that is neither a decimal literal nor an operator symbol
/// fails the evaluation, and the failure names that token, unless the
/// evaluation has failed before it.
pub proof fn lemma_unrecognized_token(expression: Seq<char>, n: int)
    requires
        0 <= n < tokens_of(expression).len(),
        kind_of(tokens_of(expression)[n]) == TokenKind::Unrecognized,
        run(Seq::empty(), tokens_of(expression).take(n)) is Ok,
    ensures
        meaning(expression) == Err::<Term, Failure>(
            Failure::UnrecognizedOperator(tokens_of(expression)[n]),
        ),
{
    let tokens = tokens_of(expression);
    assert(tokens.take(n).push(tokens[n]) == tokens.take(n + 1));
    lemma_run_push(Seq::empty(), tokens.take(n), tokens[n]);
    lemma_run_failure_lasts(Seq::empty(), tokens, n + 1);
}

/// An expression without a token has no value: the result is empty.
pub proof fn lemma_no_token(expression: Seq<char>)
    requires
        tokens_of(expression).len() == 0,
    ensures
        meaning(expression) == Err::<Term, Failure>(Failure::EmptyResult),
{
}

} // verus!
