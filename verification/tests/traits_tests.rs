use olang::ast::{Parameter, Value};
use olang::errors::InterpreterError;
use olang::string_map::StringMap;
use olang::traits::{check_param_bounds, resolve_param_bounds, type_implements, value_implements, TraitTables};

fn show_table() -> StringMap<Vec<String>> {
    let mut t: StringMap<Vec<String>> = StringMap::new();
    t.push_to("Point".to_string(), "Show".to_string());
    t.push_to("Point".to_string(), "Eq".to_string());
    t
}

fn param(name: &str, annotation: Option<&str>) -> Parameter {
    Parameter {
        name: name.to_string(),
        type_annotation: annotation.map(|a| a.to_string()),
        default_value: None,
    }
}

#[test]
fn a_type_implements_its_own_name_and_recorded_traits() {
    let t = show_table();
    assert!(type_implements(&t, "Show", "Show"));
    assert!(type_implements(&t, "Point", "Eq"));
    assert!(!type_implements(&t, "Point", "Hash"));
    assert!(!type_implements(&t, "Int", "Show"));
}

#[test]
fn value_implements_goes_by_runtime_type() {
    let mut t = show_table();
    t.push_to("Int".to_string(), "Show".to_string());
    assert!(value_implements(&t, &Value::Integer(3), "Show"));
    assert!(!value_implements(&t, &Value::Boolean(true), "Show"));
}

#[test]
fn unmet_bound_names_function_argument_type_and_trait() {
    let t = show_table();
    let bounds = vec![(0usize, vec!["Show".to_string()]), (1usize, vec!["Show".to_string(), "Eq".to_string()])];
    let point = Value::Struct { struct_name: "Point".to_string(), fields: Vec::new() };
    assert!(check_param_bounds(&t, Some("pair"), &bounds, &vec![point, Value::Integer(1)])
        .is_err());
    let point = Value::Struct { struct_name: "Point".to_string(), fields: Vec::new() };
    match check_param_bounds(&t, Some("pair"), &bounds, &vec![point, Value::Integer(1)]) {
        Err(InterpreterError::TypeError { message }) => {
            assert_eq!(message, "pair: argument 2 of type Int does not implement trait Show")
        }
        _ => panic!("expected a type error"),
    }
    match check_param_bounds(&t, None, &bounds, &vec![Value::Integer(1)]) {
        Err(InterpreterError::TypeError { message }) => {
            assert_eq!(message, "<lambda>: argument 1 of type Int does not implement trait Show")
        }
        _ => panic!("expected a type error"),
    }
}

#[test]
fn met_bounds_and_missing_arguments_pass() {
    let t = show_table();
    let bounds = vec![(0usize, vec!["Show".to_string(), "Eq".to_string()]), (3usize, vec!["Show".to_string()])];
    let point = Value::Struct { struct_name: "Point".to_string(), fields: Vec::new() };
    assert!(check_param_bounds(&t, Some("f"), &bounds, &vec![point]).is_ok());
}

#[test]
fn bounds_attach_to_parameters_annotated_with_the_variable() {
    let bounds = vec![("T".to_string(), vec!["Show".to_string()]), ("U".to_string(), vec!["Eq".to_string()])];
    let params = vec![param("x", Some("T")), param("y", Some("Int")), param("z", Some("U")), param("w", None)];
    let r = resolve_param_bounds(&bounds, &params);
    assert_eq!(r, vec![(0usize, vec!["Show".to_string()]), (2usize, vec!["Eq".to_string()])]);
    assert!(resolve_param_bounds(&Vec::new(), &params).is_empty());
}

#[test]
fn methods_come_from_impls_before_defaults() {
    let mut impls: StringMap<StringMap<u32>> = StringMap::new();
    let mut point_methods: StringMap<u32> = StringMap::new();
    point_methods.insert("show".to_string(), 1);
    impls.insert("Point".to_string(), point_methods);
    let mut defaults: StringMap<StringMap<u32>> = StringMap::new();
    let mut show_defaults: StringMap<u32> = StringMap::new();
    show_defaults.insert("show".to_string(), 2);
    show_defaults.insert("describe".to_string(), 3);
    defaults.insert("Show".to_string(), show_defaults);
    let tables = TraitTables { type_traits: show_table(), trait_impls: impls, trait_defaults: defaults };
    assert_eq!(tables.lookup_method("Point", "show"), Some(&1));
    assert_eq!(tables.lookup_method("Point", "describe"), Some(&3));
    assert_eq!(tables.lookup_method("Point", "hash"), None);
    assert_eq!(tables.lookup_method("Int", "show"), None);
}
