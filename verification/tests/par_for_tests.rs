use olang::ast::Value;
use olang::errors::InterpreterError;
use olang::par_for::{combine_par_results, par_for_gate, par_items, settle_par_item};

fn ints(v: &[Value]) -> Vec<i64> {
    v.iter()
        .map(|x| match x {
            Value::Integer(n) => *n,
            _ => panic!("expected integers"),
        })
        .collect()
}

#[test]
fn ranges_lists_and_strings_give_their_items() {
    let r = par_items(&Value::Range { start: 1, end: 4, inclusive: false }).ok().unwrap();
    assert_eq!(ints(&r), vec![1, 2, 3]);
    let r = par_items(&Value::Range { start: 1, end: 4, inclusive: true }).ok().unwrap();
    assert_eq!(ints(&r), vec![1, 2, 3, 4]);
    let r = par_items(&Value::List(vec![Value::Integer(7), Value::Integer(8)])).ok().unwrap();
    assert_eq!(ints(&r), vec![7, 8]);
    let r = par_items(&Value::String("hé".to_string())).ok().unwrap();
    let texts: Vec<String> = r
        .into_iter()
        .map(|v| match v {
            Value::String(s) => s,
            _ => panic!("expected strings"),
        })
        .collect();
    assert_eq!(texts, vec!["h".to_string(), "é".to_string()]);
    assert!(par_items(&Value::Range { start: 3, end: 3, inclusive: false }).ok().unwrap().is_empty());
}

#[test]
fn other_values_cannot_be_iterated() {
    match par_items(&Value::Integer(3)) {
        Err(InterpreterError::TypeError { message }) => {
            assert_eq!(message, "par for: cannot iterate over Int (lists, ranges, and strings)")
        }
        _ => panic!("expected a type error"),
    }
}

#[test]
fn break_and_return_cannot_leave_a_par_for() {
    assert!(settle_par_item(Ok(Value::Unit)).is_ok());
    assert!(settle_par_item(Err(InterpreterError::ContinueSignal)).is_ok());
    match settle_par_item(Err(InterpreterError::BreakSignal(Value::Unit))) {
        Err(InterpreterError::RuntimeError { message }) => assert_eq!(message, "break cannot cross a par for boundary"),
        _ => panic!("expected an error"),
    }
    match settle_par_item(Err(InterpreterError::ReturnSignal(Value::Unit))) {
        Err(InterpreterError::RuntimeError { message }) => assert_eq!(message, "return cannot cross a par for boundary"),
        _ => panic!("expected an error"),
    }
}

#[test]
fn the_failure_at_the_smallest_index_is_reported() {
    let err = |m: &str| InterpreterError::RuntimeError { message: m.to_string() };
    let rs = vec![Ok(()), Err((5usize, err("late"))), Err((2usize, err("early"))), Err((2usize, err("tie")))];
    match combine_par_results(rs) {
        Err(InterpreterError::RuntimeError { message }) => assert_eq!(message, "early"),
        _ => panic!("expected the earliest failure"),
    }
    assert!(matches!(combine_par_results(vec![Ok(()), Ok(())]), Ok(Value::Unit)));
    assert!(par_for_gate(true).is_some());
    assert!(par_for_gate(false).is_none());
}
