use olang::ast::{LetDecl, Pattern, Statement, Value};
use olang::diagnostics::{
    did_you_mean, error_file, is_control_signal, map_tier_error_message, module_member_miss,
    name_uncallable, no_field_or_method, parse_usize, short_file, spend_step,
    splice_tier_stack, statement_binds, with_article,
};
use olang::environment::Environment;
use olang::errors::InterpreterError;

fn strings(v: &[&str]) -> Vec<String> {
    v.iter().map(|s| s.to_string()).collect()
}

#[test]
fn member_miss_suggests_the_nearest_member() {
    let members = strings(&["length", "push", "map"]);
    assert_eq!(
        module_member_miss("lengt", &members),
        "Function 'lengt' not found in module — did you mean 'length'?"
    );
    assert_eq!(
        module_member_miss("zzzzzz", &members),
        "Function 'zzzzzz' not found in module"
    );
    // the name itself is never suggested
    assert_eq!(
        module_member_miss("push", &strings(&["push"])),
        "Function 'push' not found in module"
    );
}

#[test]
fn member_miss_breaks_ties_alphabetically() {
    let members = strings(&["cab", "bab", "aab"]);
    assert_eq!(
        module_member_miss("xab", &members),
        "Function 'xab' not found in module — did you mean 'aab'?"
    );
}

#[test]
fn articles() {
    assert_eq!(with_article("Int"), "an Int");
    assert_eq!(with_article("String"), "a String");
    assert_eq!(with_article("Éclair"), "a Éclair");
    assert_eq!(with_article(""), "a ");
}

#[test]
fn short_file_is_relative_to_the_entry_directory() {
    assert_eq!(short_file(Some("proj/main.ol"), "proj/lib/util.ol"), "lib/util.ol");
    assert_eq!(short_file(Some("proj/main.ol"), "other/x.ol"), "other/x.ol");
    assert_eq!(short_file(Some("main.ol"), "proj/x.ol"), "proj/x.ol");
    assert_eq!(short_file(None, "proj/x.ol"), "proj/x.ol");
}

#[test]
fn uncallable_values_are_named() {
    let e = InterpreterError::TypeError {
        message: "cannot call an Int: 3".to_string(),
    };
    match name_uncallable(e, Some("x")) {
        InterpreterError::TypeError { message } => assert_eq!(
            message,
            "'x' is an Int, not a function — it cannot be called. If a function named 'x' exists elsewhere, this local binding shadows it"
        ),
        _ => panic!("expected a type error"),
    }
    let e = InterpreterError::TypeError {
        message: "cannot call a List".to_string(),
    };
    match name_uncallable(e, Some("xs")) {
        InterpreterError::TypeError { message } => assert_eq!(
            message,
            "'xs' is a List, not a function — it cannot be called. To index it, write xs[...] instead"
        ),
        _ => panic!("expected a type error"),
    }
    let e = InterpreterError::TypeError {
        message: "other".to_string(),
    };
    match name_uncallable(e, Some("x")) {
        InterpreterError::TypeError { message } => assert_eq!(message, "other"),
        _ => panic!("expected a type error"),
    }
}

#[test]
fn tier_messages_map_onto_interpreter_errors() {
    assert!(matches!(
        map_tier_error_message("Pattern match failed".to_string()),
        InterpreterError::PatternMatchFailed
    ));
    match map_tier_error_message("Type error: bad operand".to_string()) {
        InterpreterError::TypeError { message } => assert_eq!(message, "bad operand"),
        _ => panic!("expected a type error"),
    }
    match map_tier_error_message("Type error: cannot call a String".to_string()) {
        InterpreterError::TypeError { message } => assert_eq!(
            message,
            "inside a compiled function, cannot call a String — a parameter or local named like the function it shadows is the usual cause; `olang check` names the parameter"
        ),
        _ => panic!("expected a type error"),
    }
    match map_tier_error_message("Undefined variable: q".to_string()) {
        InterpreterError::UndefinedVariable { name } => assert_eq!(name, "q"),
        _ => panic!("expected an undefined variable"),
    }
    match map_tier_error_message("Arity mismatch: expected 2, got 3".to_string()) {
        InterpreterError::ArityMismatch { expected, got } => {
            assert_eq!(expected, 2);
            assert_eq!(got, 3);
        }
        _ => panic!("expected an arity mismatch"),
    }
    match map_tier_error_message("Arity mismatch: expected two, got 3".to_string()) {
        InterpreterError::RuntimeError { message } => {
            assert_eq!(message, "Arity mismatch: expected two, got 3")
        }
        _ => panic!("expected a runtime error"),
    }
    match map_tier_error_message("Runtime error: boom".to_string()) {
        InterpreterError::RuntimeError { message } => assert_eq!(message, "boom"),
        _ => panic!("expected a runtime error"),
    }
}

#[test]
fn usize_parsing_follows_std() {
    for s in ["0", "17", "+5", "007", "18446744073709551615", "", "+", "-1", "1a", " 1", "18446744073709551616"] {
        assert_eq!(parse_usize(s), s.parse::<usize>().ok(), "input {s:?}");
    }
}

#[test]
fn control_signals() {
    assert!(is_control_signal(&InterpreterError::ContinueSignal));
    assert!(is_control_signal(&InterpreterError::BreakSignal(Value::Unit)));
    assert!(!is_control_signal(&InterpreterError::PatternMatchFailed));
}

#[test]
fn binding_statements() {
    let let_stmt = Statement::LetDecl(LetDecl {
        pattern: Pattern::Identifier("x".to_string()),
        type_annotation: None,
        value: None,
        mutable: false,
    });
    assert!(statement_binds(&let_stmt));
    let located = Statement::Located {
        stmt: Box::new(Statement::UseDecl {
            path: "m".to_string(),
        }),
        line: 1,
        column: 1,
    };
    assert!(statement_binds(&located));
    assert!(!statement_binds(&Statement::TypeDecl {
        name: "T".to_string()
    }));
}

#[test]
fn stacks_splice_at_the_shared_frame() {
    let stack = strings(&["main", "f"]);
    assert_eq!(
        splice_tier_stack(&stack, strings(&["h", "g", "f"])),
        strings(&["main", "f", "g", "h"])
    );
    assert_eq!(
        splice_tier_stack(&stack, strings(&["h", "g"])),
        strings(&["main", "f", "g", "h"])
    );
    assert_eq!(splice_tier_stack(&Vec::new(), strings(&["a"])), strings(&["a"]));
}

#[test]
fn error_files() {
    assert_eq!(error_file(Some("lib.ol"), Some("main.ol")), Some("lib.ol".to_string()));
    assert_eq!(error_file(Some("main.ol"), Some("main.ol")), None);
    assert_eq!(error_file(Some("__embedded__/x"), Some("main.ol")), None);
    assert_eq!(error_file(Some("lib.ol"), None), None);
    assert_eq!(error_file(None, Some("main.ol")), None);
}

#[test]
fn missing_fields_and_methods() {
    let defaults = vec![("Show".to_string(), "show".to_string())];
    let impls = vec![("Point".to_string(), "area".to_string())];
    assert_eq!(
        no_field_or_method(&defaults, &impls, "Circle", "show"),
        "no method 'show' for Circle: the trait Show declares it, but there is no `impl Show for Circle`"
    );
    assert_eq!(
        no_field_or_method(&defaults, &impls, "Circle", "area"),
        "no method 'area' for Circle: it is a trait method implemented for other types but not this one — add an `impl ... for Circle`"
    );
    assert_eq!(
        no_field_or_method(&defaults, &impls, "Circle", "r"),
        "Circle has no field or method 'r'"
    );
}

#[test]
fn budgets_are_charged_per_step() {
    let mut budget = Some(2u64);
    assert!(spend_step(&mut budget, None).is_ok());
    assert_eq!(budget, Some(1));
    assert!(spend_step(&mut budget, None).is_ok());
    match spend_step(&mut budget, None) {
        Err(InterpreterError::RuntimeError { message }) => {
            assert_eq!(message, "budget exceeded: the evaluation used up its max_steps")
        }
        _ => panic!("expected the budget to run out"),
    }
    assert_eq!(budget, Some(0));
    let mut none: Option<u64> = None;
    match spend_step(&mut none, Some(1500)) {
        Err(InterpreterError::RuntimeError { message }) => assert_eq!(
            message,
            "budget exceeded: the evaluation ran past its timeout_ms (1500 ms)"
        ),
        _ => panic!("expected the deadline to pass"),
    }
}

#[test]
fn did_you_mean_offers_up_to_three_names() {
    let mut env = Environment::new();
    for name in ["count", "counter", "mount", "amount", "zebra"] {
        env.define(name.to_string(), Value::Unit);
    }
    assert_eq!(
        did_you_mean(&env, "countr"),
        Some("did you mean: count, counter, mount?".to_string())
    );
    assert_eq!(did_you_mean(&env, "cont"), Some("did you mean: count?".to_string()));
    assert_eq!(did_you_mean(&env, "qqqqqqqqq"), None);
}

#[test]
fn names_sort_ascending_keeping_duplicates() {
    let names = vec!["pear".to_string(), "apple".to_string(), "Zoo".to_string(), "apple".to_string(), "äpfel".to_string()];
    assert_eq!(
        olang::diagnostics::sort_names(names),
        vec!["Zoo".to_string(), "apple".to_string(), "apple".to_string(), "pear".to_string(), "äpfel".to_string()]
    );
}

#[test]
fn module_members_lists_a_module_in_order() {
    let mut env = olang::environment::Environment::new();
    let module = olang::ast::Value::Struct {
        struct_name: "Module".to_string(),
        fields: vec![
            ("set".to_string(), olang::ast::Value::Integer(1)),
            ("get".to_string(), olang::ast::Value::Integer(2)),
            ("add".to_string(), olang::ast::Value::Integer(3)),
        ],
    };
    env.define("col".to_string(), module);
    env.define("n".to_string(), olang::ast::Value::Integer(4));
    assert_eq!(
        olang::diagnostics::module_members(&env, "col"),
        Some(vec!["add".to_string(), "get".to_string(), "set".to_string()])
    );
    assert_eq!(olang::diagnostics::module_members(&env, "n"), None);
    assert_eq!(olang::diagnostics::module_members(&env, "missing"), None);
}
