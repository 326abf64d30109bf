use olang::ast::{Pattern, Value};
use olang::patterns::pattern_matches_bind;

fn ival(n: i64) -> Value {
    Value::Integer(n)
}

#[test]
fn list_patterns_bind_heads_and_rest() {
    let p = Pattern::List {
        patterns: vec![Pattern::Identifier("a".to_string()), Pattern::Wildcard],
        rest: Some("tail".to_string()),
    };
    let v = Value::List(vec![ival(1), ival(2), ival(3), ival(4)]);
    let mut bindings = Vec::new();
    assert_eq!(pattern_matches_bind(&p, &v, &Vec::new(), &mut bindings).ok(), Some(true));
    assert_eq!(bindings.len(), 2);
    assert_eq!(bindings[0].0, "a");
    assert!(matches!(bindings[0].1, Value::Integer(1)));
    assert_eq!(bindings[1].0, "tail");
    match &bindings[1].1 {
        Value::List(items) => assert_eq!(items.len(), 2),
        _ => panic!("expected the rest as a list"),
    }
}

#[test]
fn a_failed_match_binds_nothing() {
    let p = Pattern::Tuple(vec![
        Pattern::Identifier("x".to_string()),
        Pattern::Literal(ival(5)),
    ]);
    let v = Value::Tuple(vec![ival(1), ival(6)]);
    let mut bindings = vec![("keep".to_string(), Value::Unit)];
    assert_eq!(pattern_matches_bind(&p, &v, &Vec::new(), &mut bindings).ok(), Some(false));
    assert_eq!(bindings.len(), 1);
    assert_eq!(bindings[0].0, "keep");
}

#[test]
fn unit_variant_names_compare_instead_of_binding() {
    let none = Value::Enum {
        enum_name: "Option".to_string(),
        variant_name: "None".to_string(),
        variant_data: olang::ast::EnumVariantData::Unit,
    };
    let units = vec![("None".to_string(), none)];
    let mut bindings = Vec::new();
    let p = Pattern::Identifier("None".to_string());
    assert_eq!(pattern_matches_bind(&p, &ival(3), &units, &mut bindings).ok(), Some(false));
    assert!(bindings.is_empty());
}

#[test]
fn results_and_or_patterns() {
    let p = Pattern::OkPattern(Box::new(Pattern::Identifier("v".to_string())));
    let mut bindings = Vec::new();
    assert_eq!(
        pattern_matches_bind(&p, &Value::OkValue(Box::new(ival(9))), &Vec::new(), &mut bindings).ok(),
        Some(true)
    );
    assert_eq!(bindings.len(), 1);
    let alt = Pattern::Or {
        alternatives: vec![Pattern::Literal(ival(1)), Pattern::Literal(ival(2))],
    };
    let mut b2 = Vec::new();
    assert_eq!(pattern_matches_bind(&alt, &ival(2), &Vec::new(), &mut b2).ok(), Some(true));
    assert_eq!(pattern_matches_bind(&alt, &ival(3), &Vec::new(), &mut b2).ok(), Some(false));
}
