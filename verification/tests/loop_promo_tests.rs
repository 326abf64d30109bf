use olang::ast::{BinaryOp, Expr, LetDecl, Pattern, Statement, Value};
use olang::errors::InterpreterError;
use olang::loop_promo::{analyze, apply_promoted_result, promotion_plan, synthesize_while_continuation, BodyFacts};

fn id(n: &str) -> Expr {
    Expr::Identifier(n.to_string())
}

#[test]
fn analysis_finds_free_reads_and_writes() {
    // total = total + i; let t = x; count = t
    let body = Expr::Block(vec![
        Statement::Expression(Expr::Assignment {
            target: "total".to_string(),
            value: Box::new(Expr::BinaryOp {
                left: Box::new(id("total")),
                op: BinaryOp::Add,
                right: Box::new(id("i")),
            }),
        }),
        Statement::LetDecl(LetDecl {
            pattern: Pattern::Identifier("t".to_string()),
            type_annotation: None,
            value: Some(id("x")),
            mutable: false,
        }),
        Statement::Expression(Expr::Assignment {
            target: "count".to_string(),
            value: Box::new(id("t")),
        }),
    ]);
    let facts = analyze(&body, Some("i")).unwrap();
    assert_eq!(facts.reads, vec!["total".to_string(), "x".to_string(), "count".to_string()]);
    assert_eq!(facts.writes, vec!["total".to_string(), "count".to_string()]);
}

#[test]
fn hazards_block_promotion() {
    let body = Expr::Return(None);
    assert!(analyze(&body, None).is_none());
}

#[test]
fn while_continuations_take_live_ins() {
    let f = synthesize_while_continuation(
        Expr::Boolean(true),
        Expr::Integer(1),
        &vec!["a".to_string(), "b".to_string()],
        &vec!["a".to_string()],
        None,
    );
    assert_eq!(f.parameters.len(), 2);
    assert_eq!(f.parameters[0].name, "a");
    assert!(f.def_file.is_none());
}

fn names(v: &[&str]) -> Vec<String> {
    v.iter().map(|s| s.to_string()).collect()
}

fn int_of(v: &olang::ast::Value) -> i64 {
    match v {
        olang::ast::Value::Integer(n) => *n,
        _ => panic!("expected an integer"),
    }
}

#[test]
fn promotion_plan_picks_bound_reads_as_live_ins() {
    let mut env = olang::environment::Environment::new();
    env.define("x".to_string(), Value::Integer(1));
    env.define("y".to_string(), Value::Integer(2));
    env.define("z".to_string(), Value::Integer(3));
    let body = BodyFacts { reads: names(&["x", "y", "f"]), writes: names(&["x"]) };
    let plan = promotion_plan(&env, &body, None, Some((3, 10))).unwrap();
    assert_eq!(plan.live_names, names(&["x", "y"]));
    assert_eq!(plan.args.iter().map(int_of).collect::<Vec<_>>(), vec![3, 10, 1, 2]);
    assert_eq!(plan.writes, names(&["x"]));
    let cond = BodyFacts { reads: names(&["z", "x"]), writes: Vec::new() };
    let plan = promotion_plan(&env, &body, Some(&cond), None).unwrap();
    assert_eq!(plan.live_names, names(&["x", "y", "z"]));
    assert_eq!(plan.args.iter().map(int_of).collect::<Vec<_>>(), vec![1, 2, 3]);
    let writing_cond = BodyFacts { reads: Vec::new(), writes: names(&["z"]) };
    assert!(promotion_plan(&env, &body, Some(&writing_cond), None).is_none());
    assert!(promotion_plan(&env, &body, None, None).is_none());
    let unbound_write = BodyFacts { reads: names(&["x"]), writes: names(&["q"]) };
    assert!(promotion_plan(&env, &unbound_write, None, Some((0, 1))).is_none());
}

#[test]
fn promoted_results_are_written_back() {
    let mut env = olang::environment::Environment::new();
    env.define("x".to_string(), Value::Integer(1));
    let r = apply_promoted_result(&mut env, &names(&["x"]), Value::Tuple(vec![Value::Integer(5), Value::Integer(9)]));
    assert_eq!(r.ok().unwrap().map(|v| int_of(&v)), Some(5));
    assert_eq!(env.get("x").map(|v| int_of(&v)), Some(9));
    let r = apply_promoted_result(&mut env, &names(&["x"]), Value::Integer(4));
    assert!(matches!(r, Ok(None)));
    let r = apply_promoted_result(&mut env, &Vec::new(), Value::Integer(4));
    assert_eq!(r.ok().unwrap().map(|v| int_of(&v)), Some(4));
    let r = apply_promoted_result(&mut env, &names(&["q"]), Value::Tuple(vec![Value::Unit, Value::Integer(1)]));
    assert!(matches!(r, Err(InterpreterError::UndefinedVariable { .. })));
}
