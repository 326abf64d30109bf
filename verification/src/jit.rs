//! The expression analysis that decides what the optimizing tier should
//! compile: a readiness grade per expression, and a walk that reports
//! each construct worth optimizing.

use vstd::prelude::*;
use crate::ast::{Argument, BinaryOp, Expr, Statement};
use crate::text::{append_str, decimal, owned, usize_to_string};

verus! {

/// Why an expression could not be compiled.
#[derive(Debug)]
pub enum JitError {
    UnsupportedExpression { expr: Expr },
    OptimizationError(String),
}

impl JitError {
    /// The error's message.
    pub fn message(&self) -> (s: String)
        ensures
            s@ == match self {
                JitError::UnsupportedExpression { .. } => "JIT compilation is not supported for this expression"@,
                JitError::OptimizationError(m) => "OVM optimization error: "@ + m@,
            },
    {
        match self {
            JitError::UnsupportedExpression { .. } => owned("JIT compilation is not supported for this expression"),
            JitError::OptimizationError(m) => {
                let mut s = owned("OVM optimization error: ");
                append_str(&mut s, m.as_str());
                s
            },
        }
    }
}

/// How much compiling an expression is expected to pay off.
#[derive(Debug, Clone, Copy, PartialEq, Eq, Structural)]
pub enum JitReadiness {
    HighBenefit,
    MediumBenefit,
    LowBenefit,
    NotSuitable,
}

/// The readiness grade of an expression: calls, pipelines and loops
/// gain most, operators and blocks some, everything else little.
pub open spec fn readiness(e: Expr) -> JitReadiness {
    match e {
        Expr::Call { .. } => JitReadiness::HighBenefit,
        Expr::BinaryOp { .. } => JitReadiness::MediumBenefit,
        Expr::Pipeline { .. } => JitReadiness::HighBenefit,
        Expr::WhileLoop { .. } => JitReadiness::HighBenefit,
        Expr::ForLoop { .. } => JitReadiness::HighBenefit,
        Expr::Block(_) => JitReadiness::MediumBenefit,
        _ => JitReadiness::LowBenefit,
    }
}

/// The name of a binary operator as the log writes it.
pub open spec fn binary_op_name(op: BinaryOp) -> Seq<char> {
    match op {
        BinaryOp::Add => "Add"@,
        BinaryOp::Subtract => "Subtract"@,
        BinaryOp::Multiply => "Multiply"@,
        BinaryOp::Divide => "Divide"@,
        BinaryOp::Modulo => "Modulo"@,
        BinaryOp::Equal => "Equal"@,
        BinaryOp::NotEqual => "NotEqual"@,
        BinaryOp::LessThan => "LessThan"@,
        BinaryOp::LessThanEqual => "LessThanEqual"@,
        BinaryOp::GreaterThan => "GreaterThan"@,
        BinaryOp::GreaterThanEqual => "GreaterThanEqual"@,
        BinaryOp::And => "And"@,
        BinaryOp::Or => "Or"@,
    }
}

/// The expression a call argument carries.
pub open spec fn argument_expr(a: Argument) -> Expr {
    match a {
        Argument::Positional(e) => e,
        Argument::Named { value, .. } => value,
    }
}

/// The report of analysing an expression: a line for each binary
/// operation, pipeline, loop and call, in the order the walk meets them
/// (a construct before its parts, parts left to right); blocks are walked
/// through their expression statements; nothing else is reported.
pub open spec fn jit_log(e: Expr) -> Seq<Seq<char>>
    decreases e,
{
    match e {
        Expr::Block(stmts) => stmts_log(stmts@),
        Expr::BinaryOp { left, op, right } => seq!["JIT: Analyzing binary operation: "@ + binary_op_name(op)]
            + jit_log(*left) + jit_log(*right),
        Expr::Pipeline { left, right } => seq!["JIT: Analyzing pipeline for fusion opportunities"@] + jit_log(*left)
            + jit_log(*right),
        Expr::WhileLoop { condition, body } => seq!["JIT: Analyzing while loop for optimization opportunities"@]
            + jit_log(*condition) + jit_log(*body),
        Expr::ForLoop { iterable, body, .. } => seq!["JIT: Analyzing for loop for optimization opportunities"@]
            + jit_log(*iterable) + jit_log(*body),
        Expr::Call { callee, arguments } => seq![
            "JIT: Analyzing function call with "@ + decimal(arguments@.len()) + " arguments"@,
        ] + jit_log(*callee) + args_log(arguments@),
        _ => Seq::empty(),
    }
}

/// The reports of a block's expression statements, in order.
pub open spec fn stmts_log(ss: Seq<Statement>) -> Seq<Seq<char>>
    decreases ss,
{
    if ss.len() == 0 {
        Seq::empty()
    } else {
        stmts_log(ss.drop_last()) + match ss.last() {
            Statement::Expression(e) => jit_log(e),
            _ => Seq::empty(),
        }
    }
}

/// The reports of call arguments, in order.
pub open spec fn args_log(args: Seq<Argument>) -> Seq<Seq<char>>
    decreases args,
{
    if args.len() == 0 {
        Seq::empty()
    } else {
        args_log(args.drop_last()) + match args.last() {
            Argument::Positional(e) => jit_log(e),
            Argument::Named { value, .. } => jit_log(value),
        }
    }
}

/// The character views of a list of strings.
pub open spec fn lines_of(v: Seq<String>) -> Seq<Seq<char>> {
    v.map_values(|s: String| s@)
}

/// The analysis front of the optimizing tier.
pub struct JitCompiler {
    _next_function_id: u32,
}

/// The name of a binary operator as the log writes it.
fn binary_op_text(op: BinaryOp) -> (s: &'static str)
    ensures
        s@ == binary_op_name(op),
{
    match op {
        BinaryOp::Add => "Add",
        BinaryOp::Subtract => "Subtract",
        BinaryOp::Multiply => "Multiply",
        BinaryOp::Divide => "Divide",
        BinaryOp::Modulo => "Modulo",
        BinaryOp::Equal => "Equal",
        BinaryOp::NotEqual => "NotEqual",
        BinaryOp::LessThan => "LessThan",
        BinaryOp::LessThanEqual => "LessThanEqual",
        BinaryOp::GreaterThan => "GreaterThan",
        BinaryOp::GreaterThanEqual => "GreaterThanEqual",
        BinaryOp::And => "And",
        BinaryOp::Or => "Or",
    }
}

/// Appends a line to a report.
fn push_line(log: &mut Vec<String>, line: String)
    ensures
        lines_of(final(log)@) == lines_of(old(log)@).push(line@),
{
    log.push(line);
    proof {
        assert(lines_of(log@) =~= lines_of(old(log)@).push(line@));
    }
}

impl JitCompiler {
    /// The function counter.
    pub closed spec fn counter(&self) -> u32 {
        self._next_function_id
    }

    /// A compiler whose function counter starts at zero.
    pub fn new() -> (c: Self)
        ensures
            c.counter() == 0,
    {
        JitCompiler { _next_function_id: 0 }
    }

    /// Grades how much compiling `expr` would pay off.
    pub fn assess_jit_readiness(&self, expr: &Expr) -> (r: JitReadiness)
        ensures
            r == readiness(*expr),
    {
        match expr {
            Expr::Call { .. } => JitReadiness::HighBenefit,
            Expr::BinaryOp { .. } => JitReadiness::MediumBenefit,
            Expr::Pipeline { .. } => JitReadiness::HighBenefit,
            Expr::WhileLoop { .. } => JitReadiness::HighBenefit,
            Expr::ForLoop { .. } => JitReadiness::HighBenefit,
            Expr::Block(_) => JitReadiness::MediumBenefit,
            _ => JitReadiness::LowBenefit,
        }
    }

    /// Analyses `expr` for compilation and reports what it found (see
    /// `jit_log`). Every expression is accepted.
    pub fn compile_expression(&mut self, expr: &Expr) -> (r: Result<Vec<String>, JitError>)
        ensures
            r matches Ok(lines) && lines_of(lines@) == jit_log(*expr),
            final(self).counter() == old(self).counter(),
    {
        let mut log: Vec<String> = Vec::new();
        proof {
            assert(lines_of(log@) =~= Seq::<Seq<char>>::empty());
        }
        self.walk(expr, &mut log);
        proof {
            assert(Seq::<Seq<char>>::empty() + jit_log(*expr) =~= jit_log(*expr));
        }
        Ok(log)
    }

    fn walk(&mut self, expr: &Expr, log: &mut Vec<String>)
        ensures
            lines_of(final(log)@) == lines_of(old(log)@) + jit_log(*expr),
            final(self).counter() == old(self).counter(),
        decreases expr,
    {
        let ghost start = lines_of(log@);
        match expr {
            Expr::Block(statements) => {
                self.walk_statements(statements, log);
            },
            Expr::BinaryOp { left, op, right } => {
                let mut line = owned("JIT: Analyzing binary operation: ");
                append_str(&mut line, binary_op_text(*op));
                push_line(log, line);
                self.walk(left, log);
                self.walk(right, log);
                proof {
                    assert(lines_of(log@) =~= start + jit_log(*expr));
                }
            },
            Expr::Pipeline { left, right } => {
                push_line(log, owned("JIT: Analyzing pipeline for fusion opportunities"));
                self.walk(left, log);
                self.walk(right, log);
                proof {
                    assert(lines_of(log@) =~= start + jit_log(*expr));
                }
            },
            Expr::WhileLoop { condition, body } => {
                push_line(log, owned("JIT: Analyzing while loop for optimization opportunities"));
                self.walk(condition, log);
                self.walk(body, log);
                proof {
                    assert(lines_of(log@) =~= start + jit_log(*expr));
                }
            },
            Expr::ForLoop { iterable, body, .. } => {
                push_line(log, owned("JIT: Analyzing for loop for optimization opportunities"));
                self.walk(iterable, log);
                self.walk(body, log);
                proof {
                    assert(lines_of(log@) =~= start + jit_log(*expr));
                }
            },
            Expr::Call { callee, arguments } => {
                let mut line = owned("JIT: Analyzing function call with ");
                let n = usize_to_string(arguments.len());
                append_str(&mut line, n.as_str());
                append_str(&mut line, " arguments");
                push_line(log, line);
                self.walk(callee, log);
                self.walk_arguments(arguments, log);
                proof {
                    assert(lines_of(log@) =~= start + jit_log(*expr));
                }
            },
            _ => {
                proof {
                    assert(lines_of(log@) =~= start + jit_log(*expr));
                }
            },
        }
    }

    fn walk_statements(&mut self, ss: &Vec<Statement>, log: &mut Vec<String>)
        ensures
            lines_of(final(log)@) == lines_of(old(log)@) + stmts_log(ss@),
            final(self).counter() == old(self).counter(),
        decreases ss,
    {
        let ghost start = lines_of(log@);
        let mut i: usize = 0;
        proof {
            assert(ss@.take(0) =~= Seq::<Statement>::empty());
            assert(start + stmts_log(ss@.take(0)) =~= start);
        }
        while i < ss.len()
            invariant
                i <= ss@.len(),
                lines_of(log@) == start + stmts_log(ss@.take(i as int)),
                self.counter() == old(self).counter(),
            decreases ss@.len() - i,
        {
            proof {
                vstd::std_specs::vec::axiom_vec_index_decreases(*ss, i as int);
                assert(ss@.take(i + 1).drop_last() =~= ss@.take(i as int));
                assert(ss@.take(i + 1).last() == ss@[i as int]);
            }
            let ghost before = lines_of(log@);
            match &ss[i] {
                Statement::Expression(e) => {
                    self.walk(e, log);
                },
                _ => {},
            }
            proof {
                assert(lines_of(log@) =~= start + stmts_log(ss@.take(i + 1)));
            }
            i = i + 1;
        }
        proof {
            assert(ss@.take(ss@.len() as int) =~= ss@);
        }
    }

    fn walk_arguments(&mut self, args: &Vec<Argument>, log: &mut Vec<String>)
        ensures
            lines_of(final(log)@) == lines_of(old(log)@) + args_log(args@),
            final(self).counter() == old(self).counter(),
        decreases args,
    {
        let ghost start = lines_of(log@);
        let mut i: usize = 0;
        proof {
            assert(args@.take(0) =~= Seq::<Argument>::empty());
            assert(start + args_log(args@.take(0)) =~= start);
        }
        while i < args.len()
            invariant
                i <= args@.len(),
                lines_of(log@) == start + args_log(args@.take(i as int)),
                self.counter() == old(self).counter(),
            decreases args@.len() - i,
        {
            proof {
                vstd::std_specs::vec::axiom_vec_index_decreases(*args, i as int);
                assert(args@.take(i + 1).drop_last() =~= args@.take(i as int));
                assert(args@.take(i + 1).last() == args@[i as int]);
            }
            match &args[i] {
                Argument::Positional(e) => {
                    self.walk(e, log);
                },
                Argument::Named { value, .. } => {
                    self.walk(value, log);
                },
            }
            proof {
                assert(lines_of(log@) =~= start + args_log(args@.take(i + 1)));
            }
            i = i + 1;
        }
        proof {
            assert(args@.take(args@.len() as int) =~= args@);
        }
    }
}

impl Default for JitCompiler {
    /// A compiler whose function counter starts at zero.
    fn default() -> (c: Self)
        ensures
            c.counter() == 0,
    {
        JitCompiler::new()
    }
}

} // verus!
