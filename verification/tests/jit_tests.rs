use olang::ast::{Argument, BinaryOp, Expr, Statement};
use olang::jit::{JitCompiler, JitError, JitReadiness};

#[test]
fn test_jit_compilation() {
    let mut compiler = JitCompiler::new();
    let expr = Expr::BinaryOp {
        left: Box::new(Expr::Integer(42)),
        op: BinaryOp::Add,
        right: Box::new(Expr::Integer(10)),
    };
    assert!(compiler.compile_expression(&expr).is_ok());
}

#[test]
fn test_jit_readiness_assessment() {
    let compiler = JitCompiler::new();
    let func_call = Expr::Call {
        callee: Box::new(Expr::Identifier("test_func".to_string())),
        arguments: vec![],
    };
    assert_eq!(
        compiler.assess_jit_readiness(&func_call),
        JitReadiness::HighBenefit
    );
    let binary_op = Expr::BinaryOp {
        left: Box::new(Expr::Integer(1)),
        op: BinaryOp::Add,
        right: Box::new(Expr::Integer(2)),
    };
    assert_eq!(
        compiler.assess_jit_readiness(&binary_op),
        JitReadiness::MediumBenefit
    );
    let literal = Expr::Integer(42);
    assert_eq!(
        compiler.assess_jit_readiness(&literal),
        JitReadiness::LowBenefit
    );
}

#[test]
fn test_pipeline_compilation() {
    let mut compiler = JitCompiler::new();
    let pipeline = Expr::Pipeline {
        left: Box::new(Expr::Integer(1)),
        right: Box::new(Expr::Call {
            callee: Box::new(Expr::Identifier("double".to_string())),
            arguments: vec![],
        }),
    };
    assert!(compiler.compile_expression(&pipeline).is_ok());
    assert_eq!(
        compiler.assess_jit_readiness(&pipeline),
        JitReadiness::HighBenefit
    );
}

#[test]
fn analysis_reports_constructs_in_walk_order() {
    let mut compiler = JitCompiler::new();
    let expr = Expr::Block(vec![
        Statement::Expression(Expr::Pipeline {
            left: Box::new(Expr::BinaryOp {
                left: Box::new(Expr::Integer(1)),
                op: BinaryOp::Multiply,
                right: Box::new(Expr::Integer(2)),
            }),
            right: Box::new(Expr::Call {
                callee: Box::new(Expr::Identifier("f".to_string())),
                arguments: vec![
                    Argument::Positional(Expr::Integer(3)),
                    Argument::Named {
                        name: "k".to_string(),
                        value: Expr::WhileLoop {
                            condition: Box::new(Expr::Boolean(false)),
                            body: Box::new(Expr::Block(vec![])),
                        },
                    },
                ],
            }),
        }),
        Statement::Expression(Expr::ForLoop {
            variable: "i".to_string(),
            iterable: Box::new(Expr::Identifier("xs".to_string())),
            body: Box::new(Expr::Integer(0)),
        }),
    ]);
    let lines = compiler.compile_expression(&expr).ok().unwrap();
    assert_eq!(
        lines,
        vec![
            "JIT: Analyzing pipeline for fusion opportunities".to_string(),
            "JIT: Analyzing binary operation: Multiply".to_string(),
            "JIT: Analyzing function call with 2 arguments".to_string(),
            "JIT: Analyzing while loop for optimization opportunities".to_string(),
            "JIT: Analyzing for loop for optimization opportunities".to_string(),
        ]
    );
}

#[test]
fn literals_report_nothing_and_blocks_are_medium() {
    let mut compiler = JitCompiler::new();
    assert_eq!(compiler.compile_expression(&Expr::Integer(7)).ok().unwrap().len(), 0);
    assert_eq!(
        compiler.assess_jit_readiness(&Expr::Block(vec![])),
        JitReadiness::MediumBenefit
    );
    assert_eq!(
        compiler.assess_jit_readiness(&Expr::WhileLoop {
            condition: Box::new(Expr::Boolean(true)),
            body: Box::new(Expr::Integer(1)),
        }),
        JitReadiness::HighBenefit
    );
}

#[test]
fn jit_error_messages() {
    assert_eq!(
        JitError::OptimizationError("bad pass".to_string()).message(),
        "OVM optimization error: bad pass"
    );
    assert_eq!(
        JitError::UnsupportedExpression { expr: Expr::Integer(1) }.message(),
        "JIT compilation is not supported for this expression"
    );
}
