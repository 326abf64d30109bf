use olang::ast::{BinaryOp, UnaryOp, Value};
use olang::errors::InterpreterError;
use olang::ops::{eval_binary_op, eval_range, eval_unary_op, to_boolean};

fn ival(n: i64) -> Value {
    Value::Integer(n)
}

fn text(s: &str) -> Value {
    Value::String(s.to_string())
}

fn ok_int(r: Option<Result<Value, InterpreterError>>) -> i64 {
    match r {
        Some(Ok(Value::Integer(n))) => n,
        _ => panic!("expected an integer"),
    }
}

fn ok_bool(r: Option<Result<Value, InterpreterError>>) -> bool {
    match r {
        Some(Ok(Value::Boolean(b))) => b,
        _ => panic!("expected a boolean"),
    }
}

fn runtime(r: Option<Result<Value, InterpreterError>>) -> String {
    match r {
        Some(Err(InterpreterError::RuntimeError { message })) => message,
        _ => panic!("expected a runtime error"),
    }
}

fn type_error(r: Option<Result<Value, InterpreterError>>) -> String {
    match r {
        Some(Err(InterpreterError::TypeError { message })) => message,
        _ => panic!("expected a type error"),
    }
}

#[test]
fn integer_arithmetic_is_checked() {
    assert_eq!(ok_int(eval_binary_op(ival(7), BinaryOp::Add, ival(5))), 12);
    assert_eq!(ok_int(eval_binary_op(ival(7), BinaryOp::Subtract, ival(9))), -2);
    assert_eq!(ok_int(eval_binary_op(ival(-7), BinaryOp::Divide, ival(2))), -3);
    assert_eq!(ok_int(eval_binary_op(ival(-7), BinaryOp::Modulo, ival(2))), -1);
    assert_eq!(
        runtime(eval_binary_op(ival(i64::MAX), BinaryOp::Add, ival(1))),
        "Integer overflow in addition (bigint.of gives arbitrary precision)"
    );
    assert_eq!(
        runtime(eval_binary_op(ival(i64::MIN), BinaryOp::Divide, ival(-1))),
        "Integer overflow in division (bigint.of gives arbitrary precision)"
    );
    assert_eq!(runtime(eval_binary_op(ival(1), BinaryOp::Divide, ival(0))), "Division by zero");
    assert_eq!(runtime(eval_binary_op(ival(1), BinaryOp::Modulo, ival(0))), "Modulo by zero");
}

#[test]
fn comparisons_and_logic() {
    assert!(ok_bool(eval_binary_op(ival(1), BinaryOp::LessThan, ival(2))));
    assert!(ok_bool(eval_binary_op(text("abc"), BinaryOp::LessThan, text("abd"))));
    assert!(ok_bool(eval_binary_op(text("b"), BinaryOp::GreaterThanEqual, text("b"))));
    assert!(!ok_bool(eval_binary_op(Value::Boolean(true), BinaryOp::And, Value::Boolean(false))));
    assert!(ok_bool(eval_binary_op(Value::Unit, BinaryOp::Equal, Value::Unit)));
    assert!(ok_bool(eval_binary_op(Value::Unit, BinaryOp::NotEqual, ival(0))));
    assert!(ok_bool(eval_binary_op(
        Value::List(vec![ival(1), text("x")]),
        BinaryOp::Equal,
        Value::List(vec![ival(1), text("x")])
    )));
}

#[test]
fn strings_and_lists_concatenate() {
    match eval_binary_op(text("ab"), BinaryOp::Add, text("cd")) {
        Some(Ok(Value::String(s))) => assert_eq!(s, "abcd"),
        _ => panic!("expected a string"),
    }
    match eval_binary_op(Value::List(vec![ival(1)]), BinaryOp::Add, Value::List(vec![ival(2)])) {
        Some(Ok(Value::List(v))) => assert_eq!(v.len(), 2),
        _ => panic!("expected a list"),
    }
    assert_eq!(
        type_error(eval_binary_op(text("a"), BinaryOp::Add, ival(1))),
        "cannot add String and Int; use to_string(...) to convert"
    );
}

#[test]
fn float_arithmetic_is_left_to_the_caller() {
    let x = Value::Float(1.5f64.to_bits());
    assert!(eval_binary_op(x, BinaryOp::Add, ival(1)).is_none());
    let y = Value::Float(2.0f64.to_bits());
    assert_eq!(
        runtime(eval_binary_op(y, BinaryOp::Divide, ival(0))),
        "Division by zero"
    );
}

#[test]
fn unary_truth_and_ranges() {
    match eval_unary_op(UnaryOp::Negate, ival(4)) {
        Ok(Value::Integer(n)) => assert_eq!(n, -4),
        _ => panic!("expected an integer"),
    }
    match eval_unary_op(UnaryOp::Not, Value::Boolean(false)) {
        Ok(Value::Boolean(b)) => assert!(b),
        _ => panic!("expected a boolean"),
    }
    assert!(!to_boolean(&ival(0)).unwrap());
    assert!(to_boolean(&text("x")).unwrap());
    assert!(!to_boolean(&Value::Range { start: 3, end: 3, inclusive: false }).unwrap());
    assert!(to_boolean(&Value::Range { start: 3, end: 3, inclusive: true }).unwrap());
    assert!(!to_boolean(&Value::Float((-0.0f64).to_bits())).unwrap());
    match eval_range(ival(1), text("x"), false) {
        Err(InterpreterError::TypeError { message }) => {
            assert_eq!(message, "Range end must be an integer")
        }
        _ => panic!("expected a type error"),
    }
    assert!(matches!(
        eval_range(ival(1), ival(4), true),
        Ok(Value::Range { start: 1, end: 4, inclusive: true })
    ));
}

#[test]
fn division_by_a_float_zero_is_an_error() {
    let one = || Value::Float(1.0f64.to_bits());
    let zero = || Value::Float(0.0f64.to_bits());
    let neg_zero = || Value::Float((-0.0f64).to_bits());
    assert_eq!(runtime(eval_binary_op(one(), BinaryOp::Divide, zero())), "Division by zero");
    assert_eq!(runtime(eval_binary_op(one(), BinaryOp::Divide, neg_zero())), "Division by zero");
    assert_eq!(runtime(eval_binary_op(ival(7), BinaryOp::Divide, zero())), "Division by zero");
    assert_eq!(runtime(eval_binary_op(one(), BinaryOp::Modulo, zero())), "Modulo by zero");
    assert_eq!(runtime(eval_binary_op(ival(7), BinaryOp::Modulo, zero())), "Modulo by zero");
    assert!(eval_binary_op(one(), BinaryOp::Divide, Value::Float(2.0f64.to_bits())).is_none());
}
