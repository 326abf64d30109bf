use olang::errors::{InterpreterError, IntuitiveErrorFormatter};

fn message(name: &str) -> String {
    IntuitiveErrorFormatter::default().format_error(
        &InterpreterError::UndefinedVariable {
            name: name.to_string(),
        },
        None,
        None,
    )
}

#[test]
fn a_contextual_keyword_points_at_its_declaration() {
    for kw in ["error", "share", "test", "trait"] {
        let m = message(kw);
        assert!(
            m.contains("Did you mean a declaration?"),
            "{kw} should hint at its declaration: {m}"
        );
    }
}

#[test]
fn an_ordinary_undefined_variable_gets_no_declaration_hint() {
    let m = message("foo");
    assert!(m.contains("Undefined variable: foo"));
    assert!(
        !m.contains("Did you mean a declaration?"),
        "a plain name must not be mistaken for a keyword: {m}"
    );
}

#[test]
fn ascii_distances_are_correct() {
    assert_eq!(
        IntuitiveErrorFormatter::levenshtein_distance("kitten", "sitting"),
        3
    );
    assert_eq!(
        IntuitiveErrorFormatter::levenshtein_distance("compute", "compute"),
        0
    );
    assert_eq!(IntuitiveErrorFormatter::levenshtein_distance("", "abc"), 3);
}

#[test]
fn multibyte_identifiers_measure_by_character_not_byte() {
    assert_eq!(
        IntuitiveErrorFormatter::levenshtein_distance("café", "cafe"),
        1
    );
    assert_eq!(
        IntuitiveErrorFormatter::levenshtein_distance("café", "café"),
        0
    );
    assert_eq!(
        IntuitiveErrorFormatter::levenshtein_distance("naïve", "naive"),
        1
    );
    assert_eq!(
        IntuitiveErrorFormatter::levenshtein_distance("αβγ", "αβδ"),
        1
    );
}

#[test]
fn keyword_hint_text_is_exact() {
    assert_eq!(
        message("trait"),
        "Undefined variable: trait\n\nHelp:\n  • Did you mean a declaration? `trait` declares a trait — `trait Name { fn method(self) -> T }`."
    );
    assert_eq!(message("foo"), "Undefined variable: foo");
}

#[test]
fn distance_is_symmetric_on_examples() {
    let pairs = [("flaw", "lawn"), ("intention", "execution"), ("", "x"), ("abc", "")];
    for (a, b) in pairs {
        assert_eq!(
            IntuitiveErrorFormatter::levenshtein_distance(a, b),
            IntuitiveErrorFormatter::levenshtein_distance(b, a)
        );
    }
    assert_eq!(IntuitiveErrorFormatter::levenshtein_distance("flaw", "lawn"), 2);
    assert_eq!(IntuitiveErrorFormatter::levenshtein_distance("intention", "execution"), 5);
}

#[test]
fn runtime_strips_every_leading_prefix() {
    match InterpreterError::runtime("Runtime error: Runtime error: boom".to_string()) {
        InterpreterError::RuntimeError { message } => assert_eq!(message, "boom"),
        _ => panic!("expected a runtime error"),
    }
    match InterpreterError::runtime("plain".to_string()) {
        InterpreterError::RuntimeError { message } => assert_eq!(message, "plain"),
        _ => panic!("expected a runtime error"),
    }
}

#[test]
fn suggestions_are_close_names() {
    let f = IntuitiveErrorFormatter::default();
    let available = vec![
        "print".to_string(),
        "println".to_string(),
        "parse".to_string(),
        "zzzzzz".to_string(),
    ];
    let s = f.generate_suggestions("prnt", &available);
    assert!(s.contains(&"print".to_string()));
    assert!(!s.contains(&"zzzzzz".to_string()));
}

#[test]
fn error_messages_render_their_variant() {
    let e = InterpreterError::ArityMismatch { expected: 2, got: 3 };
    assert_eq!(e.message(), "Arity mismatch: expected 2, got 3");
    let e = InterpreterError::TypeError {
        message: "bad".to_string(),
    };
    assert_eq!(e.message(), "Type error: bad");
}

#[test]
fn distance_obeys_the_triangle_inequality() {
    let d = |a: &str, b: &str| IntuitiveErrorFormatter::levenshtein_distance(a, b);
    let words = ["kitten", "sitten", "sitting", "", "mitten", "smitten"];
    for a in words {
        for b in words {
            for c in words {
                assert!(d(a, c) <= d(a, b) + d(b, c));
            }
        }
    }
    assert_eq!(d("kitten", "sitting"), 3);
}
