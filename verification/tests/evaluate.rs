use rpn::{evaluate, EvalError, Operator};

fn number(token: &str) -> f64 {
    token.parse::<f64>().unwrap()
}

fn arithmetic(op: Operator, x: f64, y: f64) -> f64 {
    match op {
        Operator::Add => x + y,
        Operator::Subtract => x - y,
        Operator::Multiply => x * y,
        Operator::Divide => x / y,
    }
}

fn eval(expression: &str) -> Result<f64, EvalError> {
    evaluate(expression, number, arithmetic)
}

fn infix(expression: &str) -> Result<String, EvalError> {
    evaluate(
        expression,
        |token: &str| token.to_string(),
        |op: Operator, x: String, y: String| format!("({} {} {})", x, op.symbol(), y),
    )
}

#[test]
fn adds_two_numbers() {
    assert_eq!(eval("3 4 +"), Ok(7.0));
}

#[test]
fn evaluates_a_long_expression() {
    let value = eval("6.1 5.2 4.3 * + 3.4 2.5 / 1.6 * -").unwrap();
    assert_eq!(format!("{:.4}", value), "26.2840");
    assert_eq!(value, 6.1 + 5.2 * 4.3 - 3.4 / 2.5 * 1.6);
}

#[test]
fn division_by_zero_is_infinite() {
    assert_eq!(eval("5 0 /"), Ok(f64::INFINITY));
    assert_eq!(eval("-5 0 /"), Ok(f64::NEG_INFINITY));
}

#[test]
fn zero_by_zero_is_not_a_number() {
    assert!(eval("0 0 /").unwrap().is_nan());
}

#[test]
fn lone_operator_underflows() {
    assert_eq!(eval("+"), Err(EvalError::StackUnderflow));
    assert_eq!(eval("-"), Err(EvalError::StackUnderflow));
    assert_eq!(eval("*"), Err(EvalError::StackUnderflow));
    assert_eq!(eval("/"), Err(EvalError::StackUnderflow));
    assert_eq!(eval("  +\n"), Err(EvalError::StackUnderflow));
}

#[test]
fn operator_with_one_operand_underflows() {
    assert_eq!(eval("1 +"), Err(EvalError::StackUnderflow));
    assert_eq!(eval("1 2 + *"), Err(EvalError::StackUnderflow));
    assert_eq!(eval("1 + 2 3"), Err(EvalError::StackUnderflow));
}

#[test]
fn unrecognized_token_is_named() {
    assert_eq!(
        eval("3 4 %"),
        Err(EvalError::UnrecognizedOperator("%".to_string()))
    );
    assert_eq!(
        eval("abc"),
        Err(EvalError::UnrecognizedOperator("abc".to_string()))
    );
    assert_eq!(
        eval("1 2 ++"),
        Err(EvalError::UnrecognizedOperator("++".to_string()))
    );
    assert_eq!(
        eval("1 2x +"),
        Err(EvalError::UnrecognizedOperator("2x".to_string()))
    );
}

#[test]
fn words_for_special_values_are_no_literals() {
    assert_eq!(
        eval("inf"),
        Err(EvalError::UnrecognizedOperator("inf".to_string()))
    );
    assert_eq!(
        eval("1 NaN +"),
        Err(EvalError::UnrecognizedOperator("NaN".to_string()))
    );
    assert_eq!(
        eval("-infinity"),
        Err(EvalError::UnrecognizedOperator("-infinity".to_string()))
    );
}

#[test]
fn empty_expression_has_no_result() {
    assert_eq!(eval(""), Err(EvalError::EmptyResult));
    assert_eq!(eval("   "), Err(EvalError::EmptyResult));
    assert_eq!(eval("\t\n\r\u{3000}"), Err(EvalError::EmptyResult));
}

#[test]
fn leftover_values_are_malformed() {
    assert_eq!(eval("1 2"), Err(EvalError::MalformedExpression));
    assert_eq!(eval("1 2 3 +"), Err(EvalError::MalformedExpression));
}

#[test]
fn first_failure_wins() {
    assert_eq!(eval("+ %"), Err(EvalError::StackUnderflow));
    assert_eq!(
        eval("% +"),
        Err(EvalError::UnrecognizedOperator("%".to_string()))
    );
    assert_eq!(
        eval("1 % +"),
        Err(EvalError::UnrecognizedOperator("%".to_string()))
    );
    assert_eq!(
        eval("1 2 3 ? !"),
        Err(EvalError::UnrecognizedOperator("?".to_string()))
    );
}

#[test]
fn single_literal_is_its_own_value() {
    assert_eq!(eval("42"), Ok(42.0));
    assert_eq!(eval(" -1.5e3 "), Ok(-1500.0));
    assert_eq!(eval(".5"), Ok(0.5));
    assert_eq!(eval("5."), Ok(5.0));
    assert_eq!(eval("+7"), Ok(7.0));
    assert_eq!(eval("1E2"), Ok(100.0));
}

#[test]
fn operands_keep_their_order() {
    assert_eq!(eval("10 4 -"), Ok(6.0));
    assert_eq!(eval("4 10 -"), Ok(-6.0));
    assert_eq!(eval("8 2 /"), Ok(4.0));
    assert_eq!(eval("2 8 /"), Ok(0.25));
    let samples = [0.0, 1.0, -1.0, 0.1, 2.5, -3.75, 1e300, 1e-300, 123456.789];
    for x in samples {
        for y in samples {
            let difference = eval(&format!("{:e} {:e} -", x, y)).unwrap();
            assert_eq!(difference, x - y);
            let quotient = eval(&format!("{:e} {:e} /", x, y)).unwrap();
            if (x / y).is_nan() {
                assert!(quotient.is_nan());
            } else {
                assert_eq!(quotient, x / y);
            }
        }
    }
}

#[test]
fn each_operator_does_its_own_work() {
    assert_eq!(eval("6 3 +"), Ok(9.0));
    assert_eq!(eval("6 3 -"), Ok(3.0));
    assert_eq!(eval("6 3 *"), Ok(18.0));
    assert_eq!(eval("6 3 /"), Ok(2.0));
}

#[test]
fn a_signed_literal_is_no_operator() {
    assert_eq!(eval("3 +5 +"), Ok(8.0));
    assert_eq!(eval("3 -5 -"), Ok(8.0));
}

#[test]
fn repeated_evaluation_agrees() {
    let expressions = [
        "3 4 +",
        "6.1 5.2 4.3 * + 3.4 2.5 / 1.6 * -",
        "5 0 /",
        "+",
        "3 4 %",
        "",
        "1 2",
    ];
    for expression in expressions {
        assert_eq!(eval(expression), eval(expression));
    }
}

#[test]
fn any_whitespace_separates() {
    assert_eq!(eval("3\t4\n+"), Ok(7.0));
    assert_eq!(eval("\u{a0}3\u{2003}4\u{3000}+\u{85}"), Ok(7.0));
    assert_eq!(eval("3    4         +"), Ok(7.0));
}

#[test]
fn structure_follows_the_stack() {
    assert_eq!(infix("3 4 +"), Ok("(3 + 4)".to_string()));
    assert_eq!(
        infix("6.1 5.2 4.3 * + 3.4 2.5 / 1.6 * -"),
        Ok("((6.1 + (5.2 * 4.3)) - ((3.4 / 2.5) * 1.6))".to_string())
    );
    assert_eq!(infix("1 2 3 4 + + +"), Ok("(1 + (2 + (3 + 4)))".to_string()));
    assert_eq!(infix("1 2 + 3 + 4 +"), Ok("(((1 + 2) + 3) + 4)".to_string()));
}

#[test]
fn literal_gets_the_text_of_the_token() {
    assert_eq!(infix(" 007.50e+01 "), Ok("007.50e+01".to_string()));
}

#[test]
fn large_exponents_saturate() {
    assert_eq!(eval("1e400"), Ok(f64::INFINITY));
    assert_eq!(eval("1e-400"), Ok(0.0));
    assert_eq!(eval("1e99999999999999999999999"), Ok(f64::INFINITY));
}

#[test]
fn deep_expression_evaluates() {
    let mut expression = String::from("0");
    for _ in 0..10_000 {
        expression.push_str(" 1 +");
    }
    assert_eq!(eval(&expression), Ok(10_000.0));
}

enum Tree {
    Leaf(String),
    Node(Operator, Box<Tree>, Box<Tree>),
}

fn grow(seed: &mut u64, depth: u32) -> Tree {
    *seed = seed.wrapping_mul(6364136223846793005).wrapping_add(1442695040888963407);
    let draw = (*seed >> 33) % 8;
    if depth == 0 || draw < 3 {
        Tree::Leaf(format!("{}.{}", draw, depth))
    } else {
        let op = match draw {
            3 | 4 => Operator::Add,
            5 => Operator::Subtract,
            6 => Operator::Multiply,
            _ => Operator::Divide,
        };
        let left = grow(seed, depth - 1);
        let right = grow(seed, depth - 1);
        Tree::Node(op, Box::new(left), Box::new(right))
    }
}

fn postfix(tree: &Tree, tokens: &mut Vec<String>) {
    match tree {
        Tree::Leaf(text) => tokens.push(text.clone()),
        Tree::Node(op, left, right) => {
            postfix(left, tokens);
            postfix(right, tokens);
            tokens.push(op.symbol().to_string());
        }
    }
}

fn render(tree: &Tree) -> String {
    match tree {
        Tree::Leaf(text) => text.clone(),
        Tree::Node(op, left, right) => {
            format!("({} {} {})", render(left), op.symbol(), render(right))
        }
    }
}

fn value(tree: &Tree) -> f64 {
    match tree {
        Tree::Leaf(text) => number(text),
        Tree::Node(op, left, right) => arithmetic(*op, value(left), value(right)),
    }
}

#[test]
fn postfix_form_of_a_tree_evaluates_to_the_tree() {
    let mut seed: u64 = 2024;
    for round in 0..200 {
        let tree = grow(&mut seed, 1 + round % 7);
        let mut tokens = Vec::new();
        postfix(&tree, &mut tokens);
        let expression = tokens.join(" ");
        assert_eq!(infix(&expression), Ok(render(&tree)), "{}", expression);
        let expected = value(&tree);
        let result = eval(&expression).unwrap();
        if expected.is_nan() {
            assert!(result.is_nan(), "{}", expression);
        } else {
            assert_eq!(result, expected, "{}", expression);
        }
    }
}
