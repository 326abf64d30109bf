//! The syntax tree the interpreter walks and the values it computes.
//!
//! A `Float` is carried as its IEEE-754 bit pattern: the library moves
//! floats around and compares them for equality, while arithmetic on them
//! happens outside the verified core.

use vstd::prelude::*;

verus! {

/// Binary operators.
#[derive(Clone, Copy, Debug, PartialEq, Eq, Structural)]
pub enum BinaryOp {
    Add,
    Subtract,
    Multiply,
    Divide,
    Modulo,
    Equal,
    NotEqual,
    LessThan,
    LessThanEqual,
    GreaterThan,
    GreaterThanEqual,
    And,
    Or,
}

/// Unary operators.
#[derive(Clone, Copy, Debug, PartialEq, Eq, Structural)]
pub enum UnaryOp {
    Negate,
    Not,
}

/// Bitwise operators.
#[derive(Clone, Copy, Debug, PartialEq, Eq, Structural)]
pub enum BitwiseOp {
    And,
    Or,
    Xor,
    ShiftLeft,
    ShiftRight,
}

/// The payload of an enum value.
#[derive(Debug)]
pub enum EnumVariantData {
    Unit,
    Tuple(Vec<Value>),
    Struct(Vec<(String, Value)>),
}

/// A runtime value. Maps (`Dict`) and struct fields are association
/// lists.
#[derive(Debug)]
pub enum Value {
    Unit,
    Integer(i64),
    /// IEEE-754 binary64 bit pattern.
    Float(u64),
    Boolean(bool),
    String(String),
    List(Vec<Value>),
    Tuple(Vec<Value>),
    Dict(Vec<(String, Value)>),
    Struct { struct_name: String, fields: Vec<(String, Value)> },
    Enum { enum_name: String, variant_name: String, variant_data: EnumVariantData },
    Range { start: i64, end: i64, inclusive: bool },
    OkValue(Box<Value>),
    ErrValue(Box<Value>),
}

/// A parameter of a function or lambda.
#[derive(Debug)]
pub struct Parameter {
    pub name: String,
    pub type_annotation: Option<String>,
    pub default_value: Option<Expr>,
}

/// A call argument.
#[derive(Debug)]
pub enum Argument {
    Positional(Expr),
    Named { name: String, value: Expr },
}

/// One arm of a `match`.
#[derive(Debug)]
pub struct MatchArm {
    pub pattern: Pattern,
    pub guard: Option<Expr>,
    pub expression: Expr,
}

/// A `name: value` field in a struct literal or anonymous object.
#[derive(Debug)]
pub struct FieldInit {
    pub name: String,
    pub value: Expr,
}

/// A struct literal `Type { field: value, ... }`.
#[derive(Debug)]
pub struct StructLiteral {
    pub struct_name: String,
    pub fields: Vec<FieldInit>,
}

/// A `key: value` entry in a map literal.
#[derive(Debug)]
pub struct MapEntry {
    pub key: Expr,
    pub value: Expr,
}

/// A piece of a template string.
#[derive(Debug)]
pub enum TemplatePart {
    Literal(String),
    Interpolation(Expr),
}

/// Expressions.
#[derive(Debug)]
pub enum Expr {
    Integer(i64),
    /// IEEE-754 binary64 bit pattern.
    Float(u64),
    String(String),
    Boolean(bool),
    RawString(String),
    Continue,
    Identifier(String),
    LocalRef { name: String, depth: u16, slot: u16 },
    LocalAssign { name: String, value: Box<Expr>, depth: u16, slot: u16 },
    Assignment { target: String, value: Box<Expr> },
    List(Vec<Expr>),
    Tuple(Vec<Expr>),
    Call { callee: Box<Expr>, arguments: Vec<Argument> },
    Lambda { parameters: Vec<Parameter>, body: Box<Expr> },
    Pipeline { left: Box<Expr>, right: Box<Expr> },
    Match { value: Box<Expr>, arms: Vec<MatchArm> },
    If { condition: Box<Expr>, then_branch: Box<Expr>, else_branch: Option<Box<Expr>> },
    Range { start: Box<Expr>, end: Box<Expr>, inclusive: bool },
    Block(Vec<Statement>),
    BinaryOp { left: Box<Expr>, op: BinaryOp, right: Box<Expr> },
    BitwiseOp { left: Box<Expr>, op: BitwiseOp, right: Box<Expr> },
    UnaryOp { op: UnaryOp, operand: Box<Expr> },
    StructLiteral(StructLiteral),
    AnonymousObject { fields: Vec<FieldInit> },
    MapLiteral { entries: Vec<MapEntry> },
    FieldAccess { object: Box<Expr>, field: String },
    ResultOk(Box<Expr>),
    ResultErr(Box<Expr>),
    Spread(Box<Expr>),
    Rest(Box<Expr>),
    ForLoop { variable: String, iterable: Box<Expr>, body: Box<Expr> },
    WhileLoop { condition: Box<Expr>, body: Box<Expr> },
    Loop { body: Box<Expr> },
    Break(Option<Box<Expr>>),
    Index { object: Box<Expr>, index: Box<Expr> },
    TemplateString { parts: Vec<TemplatePart> },
    AssertEq { actual: Box<Expr>, expected: Box<Expr>, message: Option<String> },
    AssertNe { actual: Box<Expr>, expected: Box<Expr>, message: Option<String> },
    Assert { condition: Box<Expr>, message: Option<String> },
    AssertTrue { expression: Box<Expr>, message: Option<String> },
    AssertFalse { expression: Box<Expr>, message: Option<String> },
    Return(Option<Box<Expr>>),
    Try(Box<Expr>),
    Spawn(Box<Expr>),
    ParForLoop { variable: String, iterable: Box<Expr>, body: Box<Expr> },
    MacroCall { name: String, arguments: Vec<Expr> },
}

/// Patterns of `match` arms, `let` destructuring and parameters.
#[derive(Debug)]
pub enum Pattern {
    Literal(Value),
    Identifier(String),
    Wildcard,
    List { patterns: Vec<Pattern>, rest: Option<String> },
    Tuple(Vec<Pattern>),
    EnumVariant { variant_name: String, patterns: Vec<Pattern> },
    OkPattern(Box<Pattern>),
    ErrPattern(Box<Pattern>),
    Struct { struct_name: String, field_patterns: Vec<(String, Pattern)> },
    AnonymousStruct { field_patterns: Vec<(String, Pattern)> },
    Range { start: Box<Pattern>, end: Box<Pattern>, inclusive: bool },
    Or { alternatives: Vec<Pattern> },
    Guarded { pattern: Box<Pattern>, guard: Box<Expr> },
    Rest(String),
}

/// A `let` declaration.
#[derive(Debug)]
pub struct LetDecl {
    pub pattern: Pattern,
    pub type_annotation: Option<String>,
    pub value: Option<Expr>,
    pub mutable: bool,
}

/// Statements.
#[derive(Debug)]
pub enum Statement {
    Expression(Expr),
    LetDecl(LetDecl),
    Located { stmt: Box<Statement>, line: usize, column: usize },
    FunctionDecl { name: String, parameters: Vec<Parameter>, body: Expr },
    UseDecl { path: String },
    ShareDecl(Box<Statement>),
    TypeDecl { name: String },
    TraitDecl { name: String },
    ImplDecl { trait_name: String, for_type: String },
    TestDecl { name: String, body: Expr },
}

} // verus!
