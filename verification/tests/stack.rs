use rpn::{apply_binary, EvalError};

#[test]
fn top_of_stack_is_the_right_operand() {
    let mut stack = vec![10.0, 4.0];
    assert_eq!(apply_binary(&mut stack, |x: f64, y: f64| x - y), Ok(()));
    assert_eq!(stack, vec![6.0]);

    let mut stack = vec![1.0, 8.0, 2.0];
    assert_eq!(apply_binary(&mut stack, |x: f64, y: f64| x / y), Ok(()));
    assert_eq!(stack, vec![1.0, 4.0]);
}

#[test]
fn values_below_the_operands_stay() {
    let mut stack = vec![1, 2, 3, 4, 5];
    assert_eq!(apply_binary(&mut stack, |x: i32, y: i32| 10 * x + y), Ok(()));
    assert_eq!(stack, vec![1, 2, 3, 45]);
}

#[test]
fn underflow_on_empty_stack() {
    let mut stack: Vec<f64> = Vec::new();
    assert_eq!(
        apply_binary(&mut stack, |x: f64, y: f64| x + y),
        Err(EvalError::StackUnderflow)
    );
    assert!(stack.is_empty());
}

#[test]
fn underflow_leaves_the_stack_alone() {
    let mut stack = vec![7.5];
    assert_eq!(
        apply_binary(&mut stack, |x: f64, y: f64| x + y),
        Err(EvalError::StackUnderflow)
    );
    assert_eq!(stack, vec![7.5]);
}

#[test]
fn operator_is_not_called_on_underflow() {
    let mut stack = vec![1];
    let result = apply_binary(&mut stack, |_: i32, _: i32| -> i32 {
        panic!("called without two operands")
    });
    assert_eq!(result, Err(EvalError::StackUnderflow));
}
