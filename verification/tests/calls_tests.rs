use olang::ast::{Expr, Parameter, Value};
use olang::calls::{check_arity, needs_fill, ArgCollector, ArgSlot};
use olang::errors::InterpreterError;

fn p(name: &str, default: bool) -> Parameter {
    Parameter {
        name: name.to_string(),
        type_annotation: None,
        default_value: if default { Some(Expr::Integer(0)) } else { None },
    }
}

fn runtime_message(r: Result<Vec<ArgSlot>, InterpreterError>) -> String {
    match r {
        Err(InterpreterError::RuntimeError { message }) => message,
        _ => panic!("expected a runtime error"),
    }
}

fn ints(slots: &[ArgSlot]) -> Vec<Option<i64>> {
    slots
        .iter()
        .map(|s| match s {
            ArgSlot::Given(Value::Integer(n)) => Some(*n),
            ArgSlot::Given(_) => Some(-1),
            ArgSlot::FromDefault => None,
        })
        .collect()
}

#[test]
fn named_arguments_find_their_parameters() {
    let params = vec![p("a", false), p("b", true), p("c", false)];
    let mut c = ArgCollector::new();
    assert!(c.before_positional().is_ok());
    c.add_positional(Value::Integer(1));
    assert!(c.add_named("c".to_string(), Value::Integer(3)).is_ok());
    let slots = c.finish(Some(&params)).ok().unwrap();
    assert_eq!(ints(&slots), vec![Some(1), None, Some(3)]);
}

#[test]
fn argument_errors() {
    let params = vec![p("a", false), p("b", false)];
    let mut c = ArgCollector::new();
    assert!(c.add_named("b".to_string(), Value::Integer(2)).is_ok());
    match c.before_positional() {
        Err(InterpreterError::RuntimeError { message }) => {
            assert_eq!(message, "Positional arguments cannot come after named arguments")
        }
        _ => panic!("expected an ordering error"),
    }
    match c.add_named("b".to_string(), Value::Integer(3)) {
        Err(InterpreterError::RuntimeError { message }) => {
            assert_eq!(message, "Duplicate named argument: b")
        }
        _ => panic!("expected a duplicate error"),
    }
    assert_eq!(runtime_message(c.finish(Some(&params))), "Missing required argument: a");

    let mut c = ArgCollector::new();
    c.add_positional(Value::Integer(1));
    assert!(c.add_named("a".to_string(), Value::Integer(2)).is_ok());
    assert_eq!(
        runtime_message(c.finish(Some(&params))),
        "Argument 'a' specified both positionally and by name"
    );

    let mut c = ArgCollector::new();
    c.add_positional(Value::Integer(1));
    c.add_positional(Value::Integer(2));
    assert!(c.add_named("x".to_string(), Value::Integer(3)).is_ok());
    assert!(c.add_named("y".to_string(), Value::Integer(4)).is_ok());
    assert_eq!(
        runtime_message(c.finish(Some(&params))),
        "Unrecognized named argument(s): x, y"
    );
}

#[test]
fn builtins_take_named_values_after_positional_ones() {
    let mut c = ArgCollector::new();
    c.add_positional(Value::Integer(1));
    assert!(c.add_named("z".to_string(), Value::Integer(9)).is_ok());
    let slots = c.finish(None).ok().unwrap();
    assert_eq!(ints(&slots), vec![Some(1), Some(9)]);
}

#[test]
fn arity_is_checked_against_required_and_total() {
    let params = vec![p("a", false), p("b", true)];
    assert!(check_arity(&params, 1).is_ok());
    assert!(check_arity(&params, 2).is_ok());
    assert!(matches!(
        check_arity(&params, 0),
        Err(InterpreterError::ArityMismatch { expected: 1, got: 0 })
    ));
    assert!(matches!(
        check_arity(&params, 3),
        Err(InterpreterError::ArityMismatch { expected: 2, got: 3 })
    ));
    assert!(needs_fill(&vec![ArgSlot::Given(Value::Unit)], 2));
    assert!(needs_fill(&vec![ArgSlot::FromDefault], 1));
    assert!(!needs_fill(&vec![ArgSlot::Given(Value::Unit)], 1));
}

#[test]
fn calling_values_that_are_not_functions() {
    use_call_function();
}

fn use_call_function() {
    let module = olang::ast::Value::Struct {
        struct_name: "Module".to_string(),
        fields: vec![("new".to_string(), olang::ast::Value::Integer(7))],
    };
    match olang::calls::call_function(0, 10, &module) {
        Ok(olang::calls::CallTarget::Constructor(olang::ast::Value::Integer(7))) => {}
        _ => panic!("expected the module's constructor"),
    }
    let bare = olang::ast::Value::Struct { struct_name: "Module".to_string(), fields: Vec::new() };
    match olang::calls::call_function(0, 10, &bare) {
        Err(olang::errors::InterpreterError::TypeError { message }) => {
            assert_eq!(message, "Cannot call a module that has no `new`")
        }
        _ => panic!("expected a type error"),
    }
    match olang::calls::call_function(0, 10, &olang::ast::Value::Integer(3)) {
        Err(olang::errors::InterpreterError::TypeError { message }) => {
            assert_eq!(message, "cannot call an Int: it is a value, not a function")
        }
        _ => panic!("expected a type error"),
    }
    match olang::calls::call_function(10, 10, &olang::ast::Value::Integer(3)) {
        Err(olang::errors::InterpreterError::RuntimeError { message }) => assert_eq!(
            message,
            "Maximum call depth (10) exceeded - possible infinite recursion or very deep call stack"
        ),
        _ => panic!("expected the depth error"),
    }
}
