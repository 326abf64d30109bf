//! Operator semantics: binary and unary operations, truthiness, and range
//! construction. Integer arithmetic is checked; an overflow is a runtime
//! error, never a wrapped result. Arithmetic and ordering that need
//! floating-point computation are reported as such and computed outside
//! the verified core.

use vstd::prelude::*;
use crate::ast::{BinaryOp, UnaryOp, Value};
use crate::errors::InterpreterError;
use crate::text::{append_str, chars_of, owned};
use crate::value::{copy_string, copy_value, copy_values, float_bits_eq, float_eq, kind_name, same_seq, same_value, value_eq, value_kind_name, values_equal};

verus! {

/// What a binary operation evaluates to, as a mathematical object.
pub enum OpModel {
    Int(i64),
    Bool(bool),
    Text(Seq<char>),
    Joined(Seq<Value>),
    /// The operands need floating-point arithmetic or conversion.
    NeedsFloat,
    TypeFail(Seq<char>),
    RuntimeFail(Seq<char>),
}

/// Whether an evaluation result is the one a model describes.
pub open spec fn outcome_matches(r: Option<Result<Value, InterpreterError>>, m: OpModel) -> bool {
    match m {
        OpModel::NeedsFloat => r is None,
        OpModel::Int(n) => r matches Some(Ok(Value::Integer(x))) && x == n,
        OpModel::Bool(b) => r matches Some(Ok(Value::Boolean(x))) && x == b,
        OpModel::Text(s) => r matches Some(Ok(Value::String(x))) && x@ == s,
        OpModel::Joined(vs) => r matches Some(Ok(Value::List(xs))) && same_seq(vs, xs@),
        OpModel::TypeFail(msg) => r matches Some(Err(InterpreterError::TypeError { message })) && message@ == msg,
        OpModel::RuntimeFail(msg) => r matches Some(Err(InterpreterError::RuntimeError { message })) && message@ == msg,
    }
}

/// The symbol an operator is written with.
pub open spec fn op_symbol(op: BinaryOp) -> Seq<char> {
    match op {
        BinaryOp::Add => "+"@,
        BinaryOp::Subtract => "-"@,
        BinaryOp::Multiply => "*"@,
        BinaryOp::Divide => "/"@,
        BinaryOp::Modulo => "%"@,
        BinaryOp::Equal => "=="@,
        BinaryOp::NotEqual => "!="@,
        BinaryOp::LessThan => "<"@,
        BinaryOp::LessThanEqual => "<="@,
        BinaryOp::GreaterThan => ">"@,
        BinaryOp::GreaterThanEqual => ">="@,
        BinaryOp::And => "&&"@,
        BinaryOp::Or => "||"@,
    }
}

/// Lexicographic order of strings by Unicode scalar value.
pub open spec fn str_lt(a: Seq<char>, b: Seq<char>) -> bool
    decreases a.len(),
{
    if a.len() == 0 {
        b.len() > 0
    } else if b.len() == 0 {
        false
    } else if a[0] == b[0] {
        str_lt(a.drop_first(), b.drop_first())
    } else {
        (a[0] as u32) < (b[0] as u32)
    }
}

/// Whether a value is Unit.
pub open spec fn is_unit(v: Value) -> bool {
    v is Unit
}

/// Whether a value is structured data compared by `==` as a whole.
pub open spec fn is_compound(v: Value) -> bool {
    v is Enum || v is List || v is Tuple || v is Dict || v is Struct
}

/// Whether two values are both compound and of the same shape.
pub open spec fn same_compound_shape(l: Value, r: Value) -> bool {
    (l is Enum && r is Enum) || (l is List && r is List) || (l is Tuple && r is Tuple) || (
    l is Dict && r is Dict) || (l is Struct && r is Struct)
}

/// The message of an operation no arm applies to.
pub open spec fn invalid_binary_message(l: Value, op: BinaryOp, r: Value) -> Seq<char> {
    "Invalid binary operation: cannot apply '"@ + op_symbol(op) + "' to "@ + kind_name(l) + " and "@
        + kind_name(r)
}

/// Integer overflow message of an arithmetic operator.
pub open spec fn overflow_message(what: Seq<char>) -> Seq<char> {
    "Integer overflow in "@ + what + " (bigint.of gives arbitrary precision)"@
}

/// Whether a value is a number (Int or Float).
pub open spec fn is_number(v: Value) -> bool {
    v is Integer || v is Float
}

/// Whether at least one side is a Float and both are numbers.
pub open spec fn float_mix(l: Value, r: Value) -> bool {
    is_number(l) && is_number(r) && (l is Float || r is Float)
}

/// The semantics of `l op r`.
pub open spec fn binary_op_spec(l: Value, op: BinaryOp, r: Value) -> OpModel {
    if (is_unit(l) || is_unit(r)) && op == BinaryOp::Equal {
        OpModel::Bool(is_unit(l) && is_unit(r))
    } else if (is_unit(l) || is_unit(r)) && op == BinaryOp::NotEqual {
        OpModel::Bool(!(is_unit(l) && is_unit(r)))
    } else {
        match (l, op, r) {
            (Value::Integer(a), BinaryOp::Add, Value::Integer(b)) => match a.checked_add(b) {
                Some(n) => OpModel::Int(n),
                None => OpModel::RuntimeFail(overflow_message("addition"@)),
            },
            (Value::Integer(a), BinaryOp::Subtract, Value::Integer(b)) => match a.checked_sub(b) {
                Some(n) => OpModel::Int(n),
                None => OpModel::RuntimeFail(overflow_message("subtraction"@)),
            },
            (Value::Integer(a), BinaryOp::Multiply, Value::Integer(b)) => match a.checked_mul(b) {
                Some(n) => OpModel::Int(n),
                None => OpModel::RuntimeFail(overflow_message("multiplication"@)),
            },
            (Value::Integer(a), BinaryOp::Divide, Value::Integer(b)) => if b == 0 {
                OpModel::RuntimeFail("Division by zero"@)
            } else {
                match a.checked_div(b) {
                    Some(n) => OpModel::Int(n),
                    None => OpModel::RuntimeFail(overflow_message("division"@)),
                }
            },
            (Value::Integer(a), BinaryOp::Modulo, Value::Integer(b)) => if b == 0 {
                OpModel::RuntimeFail("Modulo by zero"@)
            } else {
                match a.checked_rem(b) {
                    Some(n) => OpModel::Int(n),
                    None => OpModel::RuntimeFail(overflow_message("modulo"@)),
                }
            },
            (Value::Float(_), BinaryOp::Divide, Value::Integer(b)) => if b == 0 {
                OpModel::RuntimeFail("Division by zero"@)
            } else {
                OpModel::NeedsFloat
            },
            (Value::Float(_), BinaryOp::Modulo, Value::Integer(b)) => if b == 0 {
                OpModel::RuntimeFail("Modulo by zero"@)
            } else {
                OpModel::NeedsFloat
            },
            (Value::Float(_), BinaryOp::Divide, Value::Float(b)) => if crate::value::float_is_zero(b) {
                OpModel::RuntimeFail("Division by zero"@)
            } else {
                OpModel::NeedsFloat
            },
            (Value::Integer(_), BinaryOp::Divide, Value::Float(b)) => if crate::value::float_is_zero(b) {
                OpModel::RuntimeFail("Division by zero"@)
            } else {
                OpModel::NeedsFloat
            },
            (Value::Float(_), BinaryOp::Modulo, Value::Float(b)) => if crate::value::float_is_zero(b) {
                OpModel::RuntimeFail("Modulo by zero"@)
            } else {
                OpModel::NeedsFloat
            },
            (Value::Integer(_), BinaryOp::Modulo, Value::Float(b)) => if crate::value::float_is_zero(b) {
                OpModel::RuntimeFail("Modulo by zero"@)
            } else {
                OpModel::NeedsFloat
            },
            (Value::Float(a), BinaryOp::Equal, Value::Float(b)) => OpModel::Bool(float_eq(a, b)),
            (Value::Float(a), BinaryOp::NotEqual, Value::Float(b)) => OpModel::Bool(!float_eq(a, b)),
            (Value::Integer(a), BinaryOp::Equal, Value::Integer(b)) => OpModel::Bool(a == b),
            (Value::Integer(a), BinaryOp::NotEqual, Value::Integer(b)) => OpModel::Bool(a != b),
            (Value::Integer(a), BinaryOp::LessThan, Value::Integer(b)) => OpModel::Bool(a < b),
            (Value::Integer(a), BinaryOp::LessThanEqual, Value::Integer(b)) => OpModel::Bool(a <= b),
            (Value::Integer(a), BinaryOp::GreaterThan, Value::Integer(b)) => OpModel::Bool(a > b),
            (Value::Integer(a), BinaryOp::GreaterThanEqual, Value::Integer(b)) => OpModel::Bool(a >= b),
            (Value::String(a), BinaryOp::Equal, Value::String(b)) => OpModel::Bool(a@ == b@),
            (Value::String(a), BinaryOp::NotEqual, Value::String(b)) => OpModel::Bool(a@ != b@),
            (Value::String(a), BinaryOp::LessThan, Value::String(b)) => OpModel::Bool(str_lt(a@, b@)),
            (Value::String(a), BinaryOp::LessThanEqual, Value::String(b)) => OpModel::Bool(!str_lt(b@, a@)),
            (Value::String(a), BinaryOp::GreaterThan, Value::String(b)) => OpModel::Bool(str_lt(b@, a@)),
            (Value::String(a), BinaryOp::GreaterThanEqual, Value::String(b)) => OpModel::Bool(!str_lt(a@, b@)),
            (Value::Boolean(a), BinaryOp::Equal, Value::Boolean(b)) => OpModel::Bool(a == b),
            (Value::Boolean(a), BinaryOp::NotEqual, Value::Boolean(b)) => OpModel::Bool(a != b),
            (Value::Boolean(a), BinaryOp::And, Value::Boolean(b)) => OpModel::Bool(a && b),
            (Value::Boolean(a), BinaryOp::Or, Value::Boolean(b)) => OpModel::Bool(a || b),
            (Value::String(a), BinaryOp::Add, Value::String(b)) => OpModel::Text(a@ + b@),
            (Value::String(_), BinaryOp::Add, Value::Integer(_)) => OpModel::TypeFail(
                "cannot add String and Int; use to_string(...) to convert"@,
            ),
            (Value::Integer(_), BinaryOp::Add, Value::String(_)) => OpModel::TypeFail(
                "cannot add Int and String; use to_string(...) to convert"@,
            ),
            (Value::String(_), BinaryOp::Add, Value::Float(_)) => OpModel::TypeFail(
                "cannot add String and Float; use to_string(...) to convert"@,
            ),
            (Value::Float(_), BinaryOp::Add, Value::String(_)) => OpModel::TypeFail(
                "cannot add Float and String; use to_string(...) to convert"@,
            ),
            (Value::List(a), BinaryOp::Add, Value::List(b)) => OpModel::Joined(a@ + b@),
            _ => if float_mix(l, r) && (op == BinaryOp::Add || op == BinaryOp::Subtract || op
                == BinaryOp::Multiply || op == BinaryOp::Divide || op == BinaryOp::Modulo || op
                == BinaryOp::Equal || op == BinaryOp::NotEqual || op == BinaryOp::LessThan || op
                == BinaryOp::LessThanEqual || op == BinaryOp::GreaterThan || op
                == BinaryOp::GreaterThanEqual) {
                OpModel::NeedsFloat
            } else if same_compound_shape(l, r) && op == BinaryOp::Equal {
                OpModel::Bool(value_eq(l, r))
            } else if same_compound_shape(l, r) && op == BinaryOp::NotEqual {
                OpModel::Bool(!value_eq(l, r))
            } else {
                OpModel::TypeFail(invalid_binary_message(l, op, r))
            },
        }
    }
}


/// The symbol an operator is written with.
pub fn binary_op_symbol(op: BinaryOp) -> (s: String)
    ensures
        s@ == op_symbol(op),
{
    match op {
        BinaryOp::Add => owned("+"),
        BinaryOp::Subtract => owned("-"),
        BinaryOp::Multiply => owned("*"),
        BinaryOp::Divide => owned("/"),
        BinaryOp::Modulo => owned("%"),
        BinaryOp::Equal => owned("=="),
        BinaryOp::NotEqual => owned("!="),
        BinaryOp::LessThan => owned("<"),
        BinaryOp::LessThanEqual => owned("<="),
        BinaryOp::GreaterThan => owned(">"),
        BinaryOp::GreaterThanEqual => owned(">="),
        BinaryOp::And => owned("&&"),
        BinaryOp::Or => owned("||"),
    }
}

/// Whether `a` orders strictly before `b` (lexicographic by Unicode scalar value).
pub fn string_less(a: &String, b: &String) -> (r: bool)
    ensures
        r == str_lt(a@, b@),
{
    let x = chars_of(a.as_str());
    let y = chars_of(b.as_str());
    let mut i: usize = 0;
    proof {
        assert(a@.skip(0) =~= a@);
        assert(b@.skip(0) =~= b@);
    }
    while i < x.len() && i < y.len() && x[i] == y[i]
        invariant
            x@ == a@,
            y@ == b@,
            i <= x@.len(),
            i <= y@.len(),
            str_lt(a@, b@) == str_lt(a@.skip(i as int), b@.skip(i as int)),
        decreases x@.len() - i,
    {
        proof {
            assert(a@.skip(i as int).drop_first() =~= a@.skip(i + 1));
            assert(b@.skip(i as int).drop_first() =~= b@.skip(i + 1));
        }
        i = i + 1;
    }
    proof {
        if i < x@.len() {
            assert(a@.skip(i as int)[0] == x@[i as int]);
        }
        if i < y@.len() {
            assert(b@.skip(i as int)[0] == y@[i as int]);
        }
    }
    if i == x.len() {
        i < y.len()
    } else if i == y.len() {
        false
    } else {
        (x[i] as u32) < (y[i] as u32)
    }
}

/// The type error of an operation no arm applies to.
fn invalid_binary(l: &Value, op: BinaryOp, r: &Value) -> (e: InterpreterError)
    ensures
        e matches InterpreterError::TypeError { message } && message@ == invalid_binary_message(*l, op, *r),
{
    let mut m = owned("Invalid binary operation: cannot apply '");
    let sym = binary_op_symbol(op);
    append_str(&mut m, sym.as_str());
    append_str(&mut m, "' to ");
    let ln = value_kind_name(l);
    append_str(&mut m, ln.as_str());
    append_str(&mut m, " and ");
    let rn = value_kind_name(r);
    append_str(&mut m, rn.as_str());
    InterpreterError::TypeError { message: m }
}

/// A runtime error with the given message.
fn runtime_error(msg: &str) -> (e: InterpreterError)
    ensures
        e matches InterpreterError::RuntimeError { message } && message@ == msg@,
{
    InterpreterError::RuntimeError { message: owned(msg) }
}

/// A type error with the given message.
fn type_error(msg: &str) -> (e: InterpreterError)
    ensures
        e matches InterpreterError::TypeError { message } && message@ == msg@,
{
    InterpreterError::TypeError { message: owned(msg) }
}

/// An integer overflow error of the named operation.
fn overflow(what: &str) -> (e: InterpreterError)
    ensures
        e matches InterpreterError::RuntimeError { message } && message@ == overflow_message(what@),
{
    let mut m = owned("Integer overflow in ");
    append_str(&mut m, what);
    append_str(&mut m, " (bigint.of gives arbitrary precision)");
    InterpreterError::RuntimeError { message: m }
}

/// Evaluates `left op right`. `None` means the operation is floating-point
/// arithmetic, conversion or ordering, which is computed outside the
/// verified core; every other case is decided here.
pub fn eval_binary_op(left: Value, op: BinaryOp, right: Value) -> (r: Option<Result<Value, InterpreterError>>)
    ensures
        outcome_matches(r, binary_op_spec(left, op, right)),
{
    let l_unit = matches!(left, Value::Unit);
    let r_unit = matches!(right, Value::Unit);
    if l_unit || r_unit {
        match op {
            BinaryOp::Equal => return Some(Ok(Value::Boolean(l_unit && r_unit))),
            BinaryOp::NotEqual => return Some(Ok(Value::Boolean(!(l_unit && r_unit)))),
            _ => {},
        }
    }
    proof {
        reveal_strlit("Division by zero");
        reveal_strlit("Modulo by zero");
    }
    match (&left, op, &right) {
        (Value::Integer(a), BinaryOp::Add, Value::Integer(b)) => match a.checked_add(*b) {
            Some(n) => Some(Ok(Value::Integer(n))),
            None => Some(Err(overflow("addition"))),
        },
        (Value::Integer(a), BinaryOp::Subtract, Value::Integer(b)) => match a.checked_sub(*b) {
            Some(n) => Some(Ok(Value::Integer(n))),
            None => Some(Err(overflow("subtraction"))),
        },
        (Value::Integer(a), BinaryOp::Multiply, Value::Integer(b)) => match a.checked_mul(*b) {
            Some(n) => Some(Ok(Value::Integer(n))),
            None => Some(Err(overflow("multiplication"))),
        },
        (Value::Integer(a), BinaryOp::Divide, Value::Integer(b)) => if *b == 0 {
            Some(Err(runtime_error("Division by zero")))
        } else {
            match a.checked_div(*b) {
                Some(n) => Some(Ok(Value::Integer(n))),
                None => Some(Err(overflow("division"))),
            }
        },
        (Value::Integer(a), BinaryOp::Modulo, Value::Integer(b)) => if *b == 0 {
            Some(Err(runtime_error("Modulo by zero")))
        } else {
            match a.checked_rem(*b) {
                Some(n) => Some(Ok(Value::Integer(n))),
                None => Some(Err(overflow("modulo"))),
            }
        },
        (Value::Float(_), BinaryOp::Divide, Value::Integer(b)) => if *b == 0 {
            Some(Err(runtime_error("Division by zero")))
        } else {
            None
        },
        (Value::Float(_), BinaryOp::Modulo, Value::Integer(b)) => if *b == 0 {
            Some(Err(runtime_error("Modulo by zero")))
        } else {
            None
        },
        (Value::Float(_), BinaryOp::Divide, Value::Float(b)) => if *b & 0x7fff_ffff_ffff_ffffu64 == 0 {
            Some(Err(runtime_error("Division by zero")))
        } else {
            None
        },
        (Value::Integer(_), BinaryOp::Divide, Value::Float(b)) => if *b & 0x7fff_ffff_ffff_ffffu64 == 0 {
            Some(Err(runtime_error("Division by zero")))
        } else {
            None
        },
        (Value::Float(_), BinaryOp::Modulo, Value::Float(b)) => if *b & 0x7fff_ffff_ffff_ffffu64 == 0 {
            Some(Err(runtime_error("Modulo by zero")))
        } else {
            None
        },
        (Value::Integer(_), BinaryOp::Modulo, Value::Float(b)) => if *b & 0x7fff_ffff_ffff_ffffu64 == 0 {
            Some(Err(runtime_error("Modulo by zero")))
        } else {
            None
        },
        (Value::Float(a), BinaryOp::Equal, Value::Float(b)) => Some(Ok(Value::Boolean(float_bits_eq(*a, *b)))),
        (Value::Float(a), BinaryOp::NotEqual, Value::Float(b)) => Some(Ok(Value::Boolean(!float_bits_eq(*a, *b)))),
        (Value::Integer(a), BinaryOp::Equal, Value::Integer(b)) => Some(Ok(Value::Boolean(*a == *b))),
        (Value::Integer(a), BinaryOp::NotEqual, Value::Integer(b)) => Some(Ok(Value::Boolean(*a != *b))),
        (Value::Integer(a), BinaryOp::LessThan, Value::Integer(b)) => Some(Ok(Value::Boolean(*a < *b))),
        (Value::Integer(a), BinaryOp::LessThanEqual, Value::Integer(b)) => Some(Ok(Value::Boolean(*a <= *b))),
        (Value::Integer(a), BinaryOp::GreaterThan, Value::Integer(b)) => Some(Ok(Value::Boolean(*a > *b))),
        (Value::Integer(a), BinaryOp::GreaterThanEqual, Value::Integer(b)) => Some(Ok(Value::Boolean(*a >= *b))),
        (Value::String(a), BinaryOp::Equal, Value::String(b)) => Some(Ok(Value::Boolean(*a == *b))),
        (Value::String(a), BinaryOp::NotEqual, Value::String(b)) => Some(Ok(Value::Boolean(!(*a == *b)))),
        (Value::String(a), BinaryOp::LessThan, Value::String(b)) => Some(Ok(Value::Boolean(string_less(a, b)))),
        (Value::String(a), BinaryOp::LessThanEqual, Value::String(b)) => Some(Ok(Value::Boolean(!string_less(b, a)))),
        (Value::String(a), BinaryOp::GreaterThan, Value::String(b)) => Some(Ok(Value::Boolean(string_less(b, a)))),
        (Value::String(a), BinaryOp::GreaterThanEqual, Value::String(b)) => Some(Ok(Value::Boolean(!string_less(a, b)))),
        (Value::Boolean(a), BinaryOp::Equal, Value::Boolean(b)) => Some(Ok(Value::Boolean(*a == *b))),
        (Value::Boolean(a), BinaryOp::NotEqual, Value::Boolean(b)) => Some(Ok(Value::Boolean(*a != *b))),
        (Value::Boolean(a), BinaryOp::And, Value::Boolean(b)) => Some(Ok(Value::Boolean(*a && *b))),
        (Value::Boolean(a), BinaryOp::Or, Value::Boolean(b)) => Some(Ok(Value::Boolean(*a || *b))),
        (Value::String(a), BinaryOp::Add, Value::String(b)) => {
            let mut s = copy_string(a);
            append_str(&mut s, b.as_str());
            Some(Ok(Value::String(s)))
        },
        (Value::String(_), BinaryOp::Add, Value::Integer(_)) => Some(
            Err(type_error("cannot add String and Int; use to_string(...) to convert")),
        ),
        (Value::Integer(_), BinaryOp::Add, Value::String(_)) => Some(
            Err(type_error("cannot add Int and String; use to_string(...) to convert")),
        ),
        (Value::String(_), BinaryOp::Add, Value::Float(_)) => Some(
            Err(type_error("cannot add String and Float; use to_string(...) to convert")),
        ),
        (Value::Float(_), BinaryOp::Add, Value::String(_)) => Some(
            Err(type_error("cannot add Float and String; use to_string(...) to convert")),
        ),
        (Value::List(a), BinaryOp::Add, Value::List(b)) => {
            let mut items = copy_values(a);
            let mut i: usize = 0;
            let ghost start = items@;
            while i < b.len()
                invariant
                    i <= b@.len(),
                    items@.len() == start.len() + i,
                    same_seq(a@, start),
                    forall|k: int| 0 <= k < start.len() ==> items@[k] == start[k],
                    forall|k: int| 0 <= k < i ==> same_value(b@[k], #[trigger] items@[start.len() + k]),
                decreases b@.len() - i,
            {
                let c = copy_value(&b[i]);
                items.push(c);
                i = i + 1;
            }
            proof {
                assert forall|k: int| 0 <= k < a@.len() + b@.len() implies same_value(
                    #[trigger] (a@ + b@)[k],
                    items@[k],
                ) by {
                    if k < a@.len() {
                        assert(same_value(a@[k], start[k]));
                    } else {
                        assert(same_value(b@[k - a@.len()], items@[start.len() + (k - a@.len())]));
                    }
                }
            }
            Some(Ok(Value::List(items)))
        },
        _ => {
            let numbers = (matches!(left, Value::Integer(_)) || matches!(left, Value::Float(_)))
                && (matches!(right, Value::Integer(_)) || matches!(right, Value::Float(_)))
                && (matches!(left, Value::Float(_)) || matches!(right, Value::Float(_)));
            let arithmetic_or_order = match op {
                BinaryOp::And | BinaryOp::Or => false,
                _ => true,
            };
            let compound = match (&left, &right) {
                (Value::Enum { .. }, Value::Enum { .. }) => true,
                (Value::List(_), Value::List(_)) => true,
                (Value::Tuple(_), Value::Tuple(_)) => true,
                (Value::Dict(_), Value::Dict(_)) => true,
                (Value::Struct { .. }, Value::Struct { .. }) => true,
                _ => false,
            };
            if numbers && arithmetic_or_order {
                None
            } else if compound && op == BinaryOp::Equal {
                Some(Ok(Value::Boolean(values_equal(&left, &right))))
            } else if compound && op == BinaryOp::NotEqual {
                Some(Ok(Value::Boolean(!values_equal(&left, &right))))
            } else {
                Some(Err(invalid_binary(&left, op, &right)))
            }
        },
    }
}


/// The symbol a unary operator is written with.
pub open spec fn unary_symbol(op: UnaryOp) -> Seq<char> {
    match op {
        UnaryOp::Negate => "-"@,
        UnaryOp::Not => "!"@,
    }
}

/// Negation of a float: its sign bit flipped.
pub open spec fn float_negate(bits: u64) -> u64 {
    bits ^ 0x8000_0000_0000_0000u64
}

/// The message of a unary operation no arm applies to.
pub open spec fn invalid_unary_message(op: UnaryOp, v: Value) -> Seq<char> {
    "Invalid unary operation: cannot apply '"@ + unary_symbol(op) + "' to "@ + kind_name(v)
}

/// Evaluates `op operand`.
pub fn eval_unary_op(op: UnaryOp, operand: Value) -> (r: Result<Value, InterpreterError>)
    ensures
        match (op, operand) {
            (UnaryOp::Negate, Value::Integer(n)) => if n == i64::MIN {
                r matches Err(InterpreterError::RuntimeError { message }) && message@
                    == overflow_message("negation"@)
            } else {
                r matches Ok(Value::Integer(m)) && m == -n
            },
            (UnaryOp::Negate, Value::Float(x)) => r matches Ok(Value::Float(y)) && y == float_negate(x),
            (UnaryOp::Not, Value::Boolean(b)) => r matches Ok(Value::Boolean(c)) && c == !b,
            _ => r matches Err(InterpreterError::TypeError { message }) && message@
                == invalid_unary_message(op, operand),
        },
{
    match (op, &operand) {
        (UnaryOp::Negate, Value::Integer(n)) => if *n == i64::MIN {
            Err(overflow("negation"))
        } else {
            Ok(Value::Integer(-*n))
        },
        (UnaryOp::Negate, Value::Float(x)) => Ok(Value::Float(*x ^ 0x8000_0000_0000_0000u64)),
        (UnaryOp::Not, Value::Boolean(b)) => Ok(Value::Boolean(!*b)),
        _ => {
            let mut m = owned("Invalid unary operation: cannot apply '");
            match op {
                UnaryOp::Negate => append_str(&mut m, "-"),
                UnaryOp::Not => append_str(&mut m, "!"),
            }
            append_str(&mut m, "' to ");
            let k = value_kind_name(&operand);
            append_str(&mut m, k.as_str());
            Err(InterpreterError::TypeError { message: m })
        },
    }
}

/// The truth value of a value in a condition: false, zero, empty and Unit
/// are false; an empty range is false; everything else is true.
pub open spec fn truthy(v: Value) -> bool {
    match v {
        Value::Boolean(b) => b,
        Value::Integer(n) => n != 0,
        Value::Float(x) => !crate::value::float_is_zero(x),
        Value::String(s) => s@.len() > 0,
        Value::List(items) => items@.len() > 0,
        Value::Tuple(items) => items@.len() > 0,
        Value::Range { start, end, inclusive } => if inclusive { start <= end } else { start < end },
        Value::Unit => false,
        _ => true,
    }
}

/// The truth value of a value in a condition.
pub fn to_boolean(value: &Value) -> (r: Result<bool, InterpreterError>)
    ensures
        r matches Ok(b) && b == truthy(*value),
{
    match value {
        Value::Boolean(b) => Ok(*b),
        Value::Integer(n) => Ok(*n != 0),
        Value::Float(x) => Ok(*x & 0x7fff_ffff_ffff_ffffu64 != 0),
        Value::String(s) => Ok(s.unicode_len() != 0),
        Value::List(items) => Ok(items.len() != 0),
        Value::Tuple(items) => Ok(items.len() != 0),
        Value::Range { start, end, inclusive } => if *inclusive {
            Ok(*start <= *end)
        } else {
            Ok(*start < *end)
        },
        Value::Unit => Ok(false),
        _ => Ok(true),
    }
}

/// Builds the range `start..end` (or `start..=end`) from two integers.
pub fn eval_range(start: Value, end: Value, inclusive: bool) -> (r: Result<Value, InterpreterError>)
    ensures
        match (start, end) {
            (Value::Integer(s), Value::Integer(e)) => r matches Ok(
                Value::Range { start: s2, end: e2, inclusive: i2 },
            ) && s2 == s && e2 == e && i2 == inclusive,
            (Value::Integer(_), _) => r matches Err(InterpreterError::TypeError { message })
                && message@ == "Range end must be an integer"@,
            _ => r matches Err(InterpreterError::TypeError { message }) && message@
                == "Range start must be an integer"@,
        },
{
    let start_int = match start {
        Value::Integer(n) => n,
        _ => {
            return Err(type_error("Range start must be an integer"));
        },
    };
    let end_int = match end {
        Value::Integer(n) => n,
        _ => {
            return Err(type_error("Range end must be an integer"));
        },
    };
    Ok(Value::Range { start: start_int, end: end_int, inclusive })
}


/// Whenever `==` answers with a boolean, the answer is structural equality
/// of the two values, and whenever `!=` does, it is the negation.
pub proof fn law_equality_is_structural(a: Value, b: Value)
    ensures
        binary_op_spec(a, BinaryOp::Equal, b) matches OpModel::Bool(x) ==> x == value_eq(a, b),
        binary_op_spec(a, BinaryOp::NotEqual, b) matches OpModel::Bool(x) ==> x == !value_eq(a, b),
{
}

/// Two lists are equal under `==` exactly when they have the same length
/// and the elements at each index are equal: lists whose elements all
/// compare equal pairwise are equal, and one pair of unequal elements
/// makes the lists unequal.
pub proof fn law_list_equality(xs: Vec<Value>, ys: Vec<Value>)
    ensures
        binary_op_spec(Value::List(xs), BinaryOp::Equal, Value::List(ys)) == OpModel::Bool(
            xs@.len() == ys@.len() && forall|i: int| 0 <= i < xs@.len() ==> value_eq(#[trigger] xs@[i], ys@[i]),
        ),
        (xs@.len() == ys@.len() && forall|i: int|
            0 <= i < xs@.len() ==> binary_op_spec(#[trigger] xs@[i], BinaryOp::Equal, ys@[i]) == OpModel::Bool(true))
            ==> binary_op_spec(Value::List(xs), BinaryOp::Equal, Value::List(ys)) == OpModel::Bool(true),
        (exists|i: int|
            0 <= i < xs@.len() && i < ys@.len() && binary_op_spec(#[trigger] xs@[i], BinaryOp::Equal, ys@[i])
                == OpModel::Bool(false))
            ==> binary_op_spec(Value::List(xs), BinaryOp::Equal, Value::List(ys)) == OpModel::Bool(false),
        xs@.len() != ys@.len() ==> binary_op_spec(Value::List(xs), BinaryOp::Equal, Value::List(ys))
            == OpModel::Bool(false),
{
    let l = Value::List(xs);
    let r = Value::List(ys);
    assert(!float_mix(l, r));
    assert(same_compound_shape(l, r));
    assert(binary_op_spec(l, BinaryOp::Equal, r) == OpModel::Bool(value_eq(l, r)));
    assert(value_eq(l, r) == crate::value::seq_eq(xs@, ys@));
    assert forall|i: int| 0 <= i < xs@.len() && i < ys@.len() implies (binary_op_spec(
        #[trigger] xs@[i],
        BinaryOp::Equal,
        ys@[i],
    ) matches OpModel::Bool(x) ==> x == value_eq(xs@[i], ys@[i])) by {
        law_equality_is_structural(xs@[i], ys@[i]);
    }
}

/// A list is true in a condition exactly when it is non-empty, that is,
/// when it is not equal to the empty list; the empty list is false.
pub proof fn law_list_truthiness(xs: Vec<Value>, empty: Vec<Value>)
    requires
        empty@.len() == 0,
    ensures
        truthy(Value::List(xs)) == (xs@.len() > 0),
        truthy(Value::List(xs)) == (binary_op_spec(Value::List(xs), BinaryOp::Equal, Value::List(empty))
            == OpModel::Bool(false)),
        !truthy(Value::List(empty)),
{
    law_list_equality(xs, empty);
}

} // verus!
