use olang::ast::Value;
use olang::environment::{Environment, ModuleDebugConfig};
use olang::errors::InterpreterError;

fn ival(n: i64) -> Value {
    Value::Integer(n)
}

fn as_int(v: Option<Value>) -> Option<i64> {
    match v {
        Some(Value::Integer(n)) => Some(n),
        _ => None,
    }
}

#[test]
fn define_then_get_reads_the_value_back() {
    let mut env = Environment::new();
    env.define("x".to_string(), ival(1));
    assert_eq!(as_int(env.get("x")), Some(1));
    env.define("x".to_string(), ival(2));
    assert_eq!(as_int(env.get("x")), Some(2));
    assert!(env.get("y").is_none());
}

#[test]
fn set_on_an_unbound_name_fails_and_changes_nothing() {
    let mut env = Environment::new();
    env.define("a".to_string(), ival(1));
    match env.set("missing", ival(5)) {
        Err(InterpreterError::UndefinedVariable { name }) => assert_eq!(name, "missing"),
        _ => panic!("expected an undefined variable"),
    }
    assert!(env.get("missing").is_none());
    assert_eq!(as_int(env.get("a")), Some(1));
}

#[test]
fn a_child_scope_sees_and_writes_through_to_its_parent() {
    let mut root = Environment::new();
    root.define("x".to_string(), ival(10));
    let mut child = Environment::with_parent(root);
    assert_eq!(as_int(child.get("x")), Some(10));
    assert!(child.set("x", ival(11)).is_ok());
    assert_eq!(as_int(child.get("x")), Some(11));
    child.define("y".to_string(), ival(3));
    assert_eq!(as_int(child.get("y")), Some(3));
    // a frame keeps its own bindings out of its map
    let own = child.get_all_variables();
    assert_eq!(own.len(), 1);
    assert!(own.contains_key("y"));
}

#[test]
fn slots_are_checked_by_name_and_fall_back() {
    let mut root = Environment::new();
    root.define("g".to_string(), ival(1));
    let mut frame = Environment::with_parent(root);
    frame.define_local("p".to_string(), ival(7));
    assert_eq!(as_int(frame.get_slot("p", 0, 0)), Some(7));
    // wrong slot: falls back to an ordinary lookup
    assert_eq!(as_int(frame.get_slot("g", 0, 0)), Some(1));
    // a depth beyond the chain falls back too
    assert_eq!(as_int(frame.get_slot("p", 5, 0)), Some(7));
    assert!(frame.set_slot("p", 0, 0, ival(8)).is_ok());
    assert_eq!(as_int(frame.get("p")), Some(8));
    assert!(frame.set_slot("nope", 0, 0, ival(1)).is_err());
}

#[test]
fn take_for_move_leaves_unit() {
    let mut env = Environment::new();
    env.define("xs".to_string(), Value::List(vec![ival(1)]));
    match env.take_for_move("xs") {
        Some(Value::List(items)) => assert_eq!(items.len(), 1),
        _ => panic!("expected the list"),
    }
    assert!(matches!(env.get("xs"), Some(Value::Unit)));
    assert!(env.take_for_move("nothing").is_none());
}

#[test]
fn lists_extend_in_place() {
    let mut root = Environment::new();
    root.define("xs".to_string(), Value::List(vec![ival(1)]));
    root.define("n".to_string(), ival(0));
    let mut frame = Environment::with_parent(root);
    assert!(frame.try_extend_list("xs", &[ival(2), ival(3)]));
    match frame.get("xs") {
        Some(Value::List(items)) => {
            assert_eq!(items.len(), 3);
            assert!(matches!(items[2], Value::Integer(3)));
        }
        _ => panic!("expected a list"),
    }
    assert!(!frame.try_extend_list("n", &[ival(1)]));
    assert!(!frame.try_extend_list("absent", &[ival(1)]));
}

#[test]
fn remove_and_snapshots() {
    let mut env = Environment::new();
    env.define("a".to_string(), ival(1));
    env.define("b".to_string(), ival(2));
    env.remove_variable("a");
    assert!(env.get("a").is_none());
    let vars = env.into_variables();
    assert_eq!(vars.len(), 1);
    assert!(vars.contains_key("b"));
}

#[test]
fn module_debug_config_defaults() {
    let c = ModuleDebugConfig::new(true);
    assert!(c.enable_resolution_tracing);
    assert!(c.log_search_paths);
    assert!(!c.show_resolution_timing);
    assert!(c.verbose_error_messages);
}

#[test]
fn captured_bindings_match_lookup_through_the_chain() {
    let mut root = Environment::new();
    root.define("x".to_string(), ival(1));
    root.define("y".to_string(), ival(2));
    let mut mid = Environment::with_parent(root);
    mid.define_local("y".to_string(), ival(20));
    mid.define_local("y".to_string(), ival(21));
    let mut inner = Environment::with_parent(mid);
    inner.define("z".to_string(), ival(300));
    let captured = inner.collect_all_accessible_variables();
    assert_eq!(captured.len(), 3);
    for name in ["x", "y", "z"] {
        assert_eq!(as_int(captured.get(name).cloned()), as_int(inner.get(name)));
    }
    assert_eq!(as_int(captured.get("y").cloned()), Some(21));
}

fn module(fields: Vec<(String, Value)>) -> Value {
    Value::Struct { struct_name: "Module".to_string(), fields }
}

#[test]
fn clearing_keeps_builtins_and_modules() {
    let mut env = Environment::new();
    env.define("print".to_string(), ival(0));
    env.define("str".to_string(), module(Vec::new()));
    env.define("x".to_string(), ival(1));
    env.define("y".to_string(), ival(2));
    env.clear_user_environment(&vec!["print".to_string(), "len".to_string()]);
    assert_eq!(as_int(env.get("print")), Some(0));
    assert!(env.get("str").is_some());
    assert!(env.get("x").is_none());
    assert!(env.get("y").is_none());
}

#[test]
fn user_variables_leave_out_builtins() {
    let mut env = Environment::new();
    env.define("print".to_string(), ival(0));
    env.define("x".to_string(), ival(1));
    env.define("y".to_string(), ival(2));
    let mut user = env.get_user_variables(&vec!["print".to_string()]);
    user.sort_by(|a, b| a.0.cmp(&b.0));
    let names: Vec<String> = user.iter().map(|e| e.0.clone()).collect();
    assert_eq!(names, vec!["x".to_string(), "y".to_string()]);
    assert_eq!(as_int(Some(user[1].1.clone())), Some(2));
}
