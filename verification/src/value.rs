//! Operations every runtime value supports: its type name, structural
//! equality (what `==` means in the language), and copying.

use vstd::prelude::*;
use crate::ast::{EnumVariantData, Value};
use crate::text::owned;

verus! {

/// Whether a float bit pattern is a NaN (all exponent bits set, non-zero
/// mantissa).
pub open spec fn float_is_nan(bits: u64) -> bool {
    (bits >> 52u64) & 0x7ffu64 == 0x7ffu64 && bits & 0xf_ffff_ffff_ffffu64 != 0
}

/// Whether a float bit pattern is a zero of either sign.
pub open spec fn float_is_zero(bits: u64) -> bool {
    bits & 0x7fff_ffff_ffff_ffffu64 == 0
}

/// IEEE-754 equality of two binary64 values given by their bit patterns:
/// NaN equals nothing, the two zeros are equal, otherwise the bits agree.
pub open spec fn float_eq(a: u64, b: u64) -> bool {
    !float_is_nan(a) && !float_is_nan(b) && (a == b || (float_is_zero(a) && float_is_zero(b)))
}

/// IEEE-754 equality of two binary64 bit patterns.
pub fn float_bits_eq(a: u64, b: u64) -> (r: bool)
    ensures
        r == float_eq(a, b),
{
    let a_nan = (a >> 52u64) & 0x7ffu64 == 0x7ffu64 && a & 0xf_ffff_ffff_ffffu64 != 0;
    let b_nan = (b >> 52u64) & 0x7ffu64 == 0x7ffu64 && b & 0xf_ffff_ffff_ffffu64 != 0;
    let a_zero = a & 0x7fff_ffff_ffff_ffffu64 == 0;
    let b_zero = b & 0x7fff_ffff_ffff_ffffu64 == 0;
    !a_nan && !b_nan && (a == b || (a_zero && b_zero))
}

/// The name of a value's type, as error messages print it.
pub open spec fn kind_name(v: Value) -> Seq<char> {
    match v {
        Value::Unit => "Unit"@,
        Value::Integer(_) => "Int"@,
        Value::Float(_) => "Float"@,
        Value::Boolean(_) => "Bool"@,
        Value::String(_) => "String"@,
        Value::List(_) => "List"@,
        Value::Tuple(_) => "Tuple"@,
        Value::Dict(_) => "Map"@,
        Value::Struct { struct_name, .. } => struct_name@,
        Value::Enum { enum_name, .. } => enum_name@,
        Value::Range { .. } => "Range"@,
        Value::OkValue(_) => "Result"@,
        Value::ErrValue(_) => "Result"@,
    }
}

/// Structural equality of values: what `==` means between two values of
/// the same shape. Maps and structs are compared as maps: every entry of
/// one has an equal entry under the same key in the other, and they have
/// as many entries.
pub open spec fn value_eq(a: Value, b: Value) -> bool
    decreases a,
{
    match (a, b) {
        (Value::Unit, Value::Unit) => true,
        (Value::Integer(x), Value::Integer(y)) => x == y,
        (Value::Float(x), Value::Float(y)) => float_eq(x, y),
        (Value::Boolean(x), Value::Boolean(y)) => x == y,
        (Value::String(x), Value::String(y)) => x@ == y@,
        (Value::List(xs), Value::List(ys)) => seq_eq(xs@, ys@),
        (Value::Tuple(xs), Value::Tuple(ys)) => seq_eq(xs@, ys@),
        (Value::Dict(xs), Value::Dict(ys)) => entries_eq(xs@, ys@),
        (Value::Struct { struct_name: n, fields: xs }, Value::Struct { struct_name: m, fields: ys }) =>
            n@ == m@ && entries_eq(xs@, ys@),
        (
            Value::Enum { enum_name: n, variant_name: v, variant_data: d },
            Value::Enum { enum_name: m, variant_name: w, variant_data: e },
        ) => n@ == m@ && v@ == w@ && data_eq(d, e),
        (
            Value::Range { start: s1, end: e1, inclusive: i1 },
            Value::Range { start: s2, end: e2, inclusive: i2 },
        ) => s1 == s2 && e1 == e2 && i1 == i2,
        (Value::OkValue(x), Value::OkValue(y)) => value_eq(*x, *y),
        (Value::ErrValue(x), Value::ErrValue(y)) => value_eq(*x, *y),
        _ => false,
    }
}

/// Element-wise equality of two value sequences.
pub open spec fn seq_eq(xs: Seq<Value>, ys: Seq<Value>) -> bool
    decreases xs,
{
    xs.len() == ys.len() && forall|i: int| 0 <= i < xs.len() ==> value_eq(#[trigger] xs[i], ys[i])
}

/// Equality of two association lists as maps (for lists with distinct keys).
pub open spec fn entries_eq(xs: Seq<(String, Value)>, ys: Seq<(String, Value)>) -> bool
    decreases xs,
{
    xs.len() == ys.len() && forall|i: int| 0 <= i < xs.len() ==> has_equal_entry(ys, #[trigger] xs[i])
}

/// Whether `ys` holds an entry with the key of `e` and a value equal to its value.
pub open spec fn has_equal_entry(ys: Seq<(String, Value)>, e: (String, Value)) -> bool
    decreases e,
{
    exists|j: int| 0 <= j < ys.len() && (#[trigger] ys[j]).0@ == e.0@ && value_eq(e.1, ys[j].1)
}

/// Equality of enum payloads.
pub open spec fn data_eq(d: EnumVariantData, e: EnumVariantData) -> bool
    decreases d,
{
    match (d, e) {
        (EnumVariantData::Unit, EnumVariantData::Unit) => true,
        (EnumVariantData::Tuple(xs), EnumVariantData::Tuple(ys)) => seq_eq(xs@, ys@),
        (EnumVariantData::Struct(xs), EnumVariantData::Struct(ys)) => entries_eq(xs@, ys@),
        _ => false,
    }
}


/// Whether `b` is an exact copy of `a`: the same shape, the same scalars,
/// the same characters, the same entries in the same order.
pub open spec fn same_value(a: Value, b: Value) -> bool
    decreases a,
{
    match (a, b) {
        (Value::Unit, Value::Unit) => true,
        (Value::Integer(x), Value::Integer(y)) => x == y,
        (Value::Float(x), Value::Float(y)) => x == y,
        (Value::Boolean(x), Value::Boolean(y)) => x == y,
        (Value::String(x), Value::String(y)) => x@ == y@,
        (Value::List(xs), Value::List(ys)) => same_seq(xs@, ys@),
        (Value::Tuple(xs), Value::Tuple(ys)) => same_seq(xs@, ys@),
        (Value::Dict(xs), Value::Dict(ys)) => same_entries(xs@, ys@),
        (Value::Struct { struct_name: n, fields: xs }, Value::Struct { struct_name: m, fields: ys }) =>
            n@ == m@ && same_entries(xs@, ys@),
        (
            Value::Enum { enum_name: n, variant_name: v, variant_data: d },
            Value::Enum { enum_name: m, variant_name: w, variant_data: e },
        ) => n@ == m@ && v@ == w@ && same_data(d, e),
        (
            Value::Range { start: s1, end: e1, inclusive: i1 },
            Value::Range { start: s2, end: e2, inclusive: i2 },
        ) => s1 == s2 && e1 == e2 && i1 == i2,
        (Value::OkValue(x), Value::OkValue(y)) => same_value(*x, *y),
        (Value::ErrValue(x), Value::ErrValue(y)) => same_value(*x, *y),
        _ => false,
    }
}

/// Element-wise exact copies.
pub open spec fn same_seq(xs: Seq<Value>, ys: Seq<Value>) -> bool
    decreases xs,
{
    xs.len() == ys.len() && forall|i: int| 0 <= i < xs.len() ==> same_value(#[trigger] xs[i], ys[i])
}

/// Entry-wise exact copies, in order.
pub open spec fn same_entries(xs: Seq<(String, Value)>, ys: Seq<(String, Value)>) -> bool
    decreases xs,
{
    xs.len() == ys.len() && forall|i: int|
        0 <= i < xs.len() ==> (#[trigger] xs[i]).0@ == ys[i].0@ && same_value(xs[i].1, ys[i].1)
}

/// Exact copies of enum payloads.
pub open spec fn same_data(d: EnumVariantData, e: EnumVariantData) -> bool
    decreases d,
{
    match (d, e) {
        (EnumVariantData::Unit, EnumVariantData::Unit) => true,
        (EnumVariantData::Tuple(xs), EnumVariantData::Tuple(ys)) => same_seq(xs@, ys@),
        (EnumVariantData::Struct(xs), EnumVariantData::Struct(ys)) => same_entries(xs@, ys@),
        _ => false,
    }
}

/// Every value is an exact copy of itself.
pub proof fn lemma_same_value_refl(a: Value)
    ensures
        same_value(a, a),
    decreases a,
{
    match a {
        Value::List(xs) => {
            assert forall|i: int| 0 <= i < xs@.len() implies same_value(#[trigger] xs@[i], xs@[i]) by {
                vstd::std_specs::vec::axiom_vec_index_decreases(xs, i);
                lemma_same_value_refl(xs@[i]);
            }
            assert(same_seq(xs@, xs@));
        },
        Value::Tuple(xs) => {
            assert forall|i: int| 0 <= i < xs@.len() implies same_value(#[trigger] xs@[i], xs@[i]) by {
                vstd::std_specs::vec::axiom_vec_index_decreases(xs, i);
                lemma_same_value_refl(xs@[i]);
            }
            assert(same_seq(xs@, xs@));
        },
        Value::Dict(xs) => {
            assert forall|i: int| 0 <= i < xs@.len() implies same_value(#[trigger] xs@[i].1, xs@[i].1) by {
                vstd::std_specs::vec::axiom_vec_index_decreases(xs, i);
                lemma_same_value_refl(xs@[i].1);
            }
            assert(same_entries(xs@, xs@));
        },
        Value::Struct { fields: xs, .. } => {
            assert forall|i: int| 0 <= i < xs@.len() implies same_value(#[trigger] xs@[i].1, xs@[i].1) by {
                vstd::std_specs::vec::axiom_vec_index_decreases(xs, i);
                lemma_same_value_refl(xs@[i].1);
            }
            assert(same_entries(xs@, xs@));
        },
        Value::Enum { variant_data: d, .. } => {
            match d {
                EnumVariantData::Unit => {},
                EnumVariantData::Tuple(xs) => {
                    assert forall|i: int| 0 <= i < xs@.len() implies same_value(#[trigger] xs@[i], xs@[i]) by {
                        vstd::std_specs::vec::axiom_vec_index_decreases(xs, i);
                        lemma_same_value_refl(xs@[i]);
                    }
                    assert(same_seq(xs@, xs@));
                },
                EnumVariantData::Struct(xs) => {
                    assert forall|i: int| 0 <= i < xs@.len() implies same_value(#[trigger] xs@[i].1, xs@[i].1) by {
                        vstd::std_specs::vec::axiom_vec_index_decreases(xs, i);
                        lemma_same_value_refl(xs@[i].1);
                    }
                    assert(same_entries(xs@, xs@));
                },
            }
            assert(same_data(d, d));
        },
        Value::OkValue(x) => lemma_same_value_refl(*x),
        Value::ErrValue(x) => lemma_same_value_refl(*x),
        _ => {},
    }
}

/// Being an exact copy goes both ways.
pub proof fn lemma_same_value_sym(a: Value, b: Value)
    requires
        same_value(a, b),
    ensures
        same_value(b, a),
    decreases a,
{
    match (a, b) {
        (Value::List(xs), Value::List(ys)) => {
            assert(same_seq(xs@, ys@));
            assert forall|i: int| 0 <= i < ys@.len() implies same_value(#[trigger] ys@[i], xs@[i]) by {
                vstd::std_specs::vec::axiom_vec_index_decreases(xs, i);
                assert(same_value(xs@[i], ys@[i]));
                lemma_same_value_sym(xs@[i], ys@[i]);
            }
            assert(same_seq(ys@, xs@));
        },
        (Value::Tuple(xs), Value::Tuple(ys)) => {
            assert(same_seq(xs@, ys@));
            assert forall|i: int| 0 <= i < ys@.len() implies same_value(#[trigger] ys@[i], xs@[i]) by {
                vstd::std_specs::vec::axiom_vec_index_decreases(xs, i);
                assert(same_value(xs@[i], ys@[i]));
                lemma_same_value_sym(xs@[i], ys@[i]);
            }
            assert(same_seq(ys@, xs@));
        },
        (Value::Dict(xs), Value::Dict(ys)) => {
            assert(same_entries(xs@, ys@));
            assert forall|i: int| 0 <= i < ys@.len() implies (#[trigger] ys@[i]).0@ == xs@[i].0@ && same_value(ys@[i].1, xs@[i].1) by {
                vstd::std_specs::vec::axiom_vec_index_decreases(xs, i);
                assert(same_value(xs@[i].1, ys@[i].1));
                lemma_same_value_sym(xs@[i].1, ys@[i].1);
            }
            assert(same_entries(ys@, xs@));
        },
        (Value::Struct { fields: xs, .. }, Value::Struct { fields: ys, .. }) => {
            assert(same_entries(xs@, ys@));
            assert forall|i: int| 0 <= i < ys@.len() implies (#[trigger] ys@[i]).0@ == xs@[i].0@ && same_value(ys@[i].1, xs@[i].1) by {
                vstd::std_specs::vec::axiom_vec_index_decreases(xs, i);
                assert(same_value(xs@[i].1, ys@[i].1));
                lemma_same_value_sym(xs@[i].1, ys@[i].1);
            }
            assert(same_entries(ys@, xs@));
        },
        (Value::Enum { variant_data: d, .. }, Value::Enum { variant_data: e, .. }) => {
            assert(same_data(d, e));
            match (d, e) {
                (EnumVariantData::Tuple(xs), EnumVariantData::Tuple(ys)) => {
                    assert(same_seq(xs@, ys@));
                    assert forall|i: int| 0 <= i < ys@.len() implies same_value(#[trigger] ys@[i], xs@[i]) by {
                        vstd::std_specs::vec::axiom_vec_index_decreases(xs, i);
                        assert(same_value(xs@[i], ys@[i]));
                        lemma_same_value_sym(xs@[i], ys@[i]);
                    }
                    assert(same_seq(ys@, xs@));
                },
                (EnumVariantData::Struct(xs), EnumVariantData::Struct(ys)) => {
                    assert(same_entries(xs@, ys@));
                    assert forall|i: int| 0 <= i < ys@.len() implies (#[trigger] ys@[i]).0@ == xs@[i].0@ && same_value(ys@[i].1, xs@[i].1) by {
                        vstd::std_specs::vec::axiom_vec_index_decreases(xs, i);
                        assert(same_value(xs@[i].1, ys@[i].1));
                        lemma_same_value_sym(xs@[i].1, ys@[i].1);
                    }
                    assert(same_entries(ys@, xs@));
                },
                _ => {},
            }
            assert(same_data(e, d));
        },
        (Value::OkValue(x), Value::OkValue(y)) => lemma_same_value_sym(*x, *y),
        (Value::ErrValue(x), Value::ErrValue(y)) => lemma_same_value_sym(*x, *y),
        _ => {},
    }
}

/// A copy of a copy is a copy.
pub proof fn lemma_same_value_trans(a: Value, b: Value, c: Value)
    requires
        same_value(a, b),
        same_value(b, c),
    ensures
        same_value(a, c),
    decreases a,
{
    match (a, b, c) {
        (Value::List(xs), Value::List(ys), Value::List(zs)) => {
            assert(same_seq(xs@, ys@) && same_seq(ys@, zs@));
            assert forall|i: int| 0 <= i < xs@.len() implies same_value(#[trigger] xs@[i], zs@[i]) by {
                vstd::std_specs::vec::axiom_vec_index_decreases(xs, i);
                assert(same_value(xs@[i], ys@[i]));
                assert(same_value(ys@[i], zs@[i]));
                lemma_same_value_trans(xs@[i], ys@[i], zs@[i]);
            }
            assert(same_seq(xs@, zs@));
        },
        (Value::Tuple(xs), Value::Tuple(ys), Value::Tuple(zs)) => {
            assert(same_seq(xs@, ys@) && same_seq(ys@, zs@));
            assert forall|i: int| 0 <= i < xs@.len() implies same_value(#[trigger] xs@[i], zs@[i]) by {
                vstd::std_specs::vec::axiom_vec_index_decreases(xs, i);
                assert(same_value(xs@[i], ys@[i]));
                assert(same_value(ys@[i], zs@[i]));
                lemma_same_value_trans(xs@[i], ys@[i], zs@[i]);
            }
            assert(same_seq(xs@, zs@));
        },
        (Value::Dict(xs), Value::Dict(ys), Value::Dict(zs)) => {
            assert(same_entries(xs@, ys@) && same_entries(ys@, zs@));
            assert forall|i: int| 0 <= i < xs@.len() implies (#[trigger] xs@[i]).0@ == zs@[i].0@ && same_value(xs@[i].1, zs@[i].1) by {
                vstd::std_specs::vec::axiom_vec_index_decreases(xs, i);
                assert(same_value(xs@[i].1, ys@[i].1));
                assert(same_value(ys@[i].1, zs@[i].1));
                lemma_same_value_trans(xs@[i].1, ys@[i].1, zs@[i].1);
            }
            assert(same_entries(xs@, zs@));
        },
        (Value::Struct { fields: xs, .. }, Value::Struct { fields: ys, .. }, Value::Struct { fields: zs, .. }) => {
            assert(same_entries(xs@, ys@) && same_entries(ys@, zs@));
            assert forall|i: int| 0 <= i < xs@.len() implies (#[trigger] xs@[i]).0@ == zs@[i].0@ && same_value(xs@[i].1, zs@[i].1) by {
                vstd::std_specs::vec::axiom_vec_index_decreases(xs, i);
                assert(same_value(xs@[i].1, ys@[i].1));
                assert(same_value(ys@[i].1, zs@[i].1));
                lemma_same_value_trans(xs@[i].1, ys@[i].1, zs@[i].1);
            }
            assert(same_entries(xs@, zs@));
        },
        (Value::Enum { variant_data: d, .. }, Value::Enum { variant_data: e, .. }, Value::Enum { variant_data: f, .. }) => {
            assert(same_data(d, e) && same_data(e, f));
            match (d, e, f) {
                (EnumVariantData::Tuple(xs), EnumVariantData::Tuple(ys), EnumVariantData::Tuple(zs)) => {
                    assert(same_seq(xs@, ys@) && same_seq(ys@, zs@));
                    assert forall|i: int| 0 <= i < xs@.len() implies same_value(#[trigger] xs@[i], zs@[i]) by {
                        vstd::std_specs::vec::axiom_vec_index_decreases(xs, i);
                        assert(same_value(xs@[i], ys@[i]));
                        assert(same_value(ys@[i], zs@[i]));
                        lemma_same_value_trans(xs@[i], ys@[i], zs@[i]);
                    }
                    assert(same_seq(xs@, zs@));
                },
                (EnumVariantData::Struct(xs), EnumVariantData::Struct(ys), EnumVariantData::Struct(zs)) => {
                    assert(same_entries(xs@, ys@) && same_entries(ys@, zs@));
                    assert forall|i: int| 0 <= i < xs@.len() implies (#[trigger] xs@[i]).0@ == zs@[i].0@ && same_value(xs@[i].1, zs@[i].1) by {
                        vstd::std_specs::vec::axiom_vec_index_decreases(xs, i);
                        assert(same_value(xs@[i].1, ys@[i].1));
                        assert(same_value(ys@[i].1, zs@[i].1));
                        lemma_same_value_trans(xs@[i].1, ys@[i].1, zs@[i].1);
                    }
                    assert(same_entries(xs@, zs@));
                },
                _ => {},
            }
            assert(same_data(d, f));
        },
        (Value::OkValue(x), Value::OkValue(y), Value::OkValue(z)) => lemma_same_value_trans(*x, *y, *z),
        (Value::ErrValue(x), Value::ErrValue(y), Value::ErrValue(z)) => lemma_same_value_trans(*x, *y, *z),
        _ => {},
    }
}

/// A copy of a string.
pub fn copy_string(s: &String) -> (r: String)
    ensures
        r@ == s@,
{
    s.clone()
}

/// An exact copy of a value.
pub fn copy_value(v: &Value) -> (r: Value)
    ensures
        same_value(*v, r),
    decreases v,
{
    match v {
        Value::Unit => Value::Unit,
        Value::Integer(x) => Value::Integer(*x),
        Value::Float(x) => Value::Float(*x),
        Value::Boolean(x) => Value::Boolean(*x),
        Value::String(s) => Value::String(copy_string(s)),
        Value::List(xs) => Value::List(copy_values(xs)),
        Value::Tuple(xs) => Value::Tuple(copy_values(xs)),
        Value::Dict(xs) => Value::Dict(copy_entries(xs)),
        Value::Struct { struct_name, fields } => Value::Struct {
            struct_name: copy_string(struct_name),
            fields: copy_entries(fields),
        },
        Value::Enum { enum_name, variant_name, variant_data } => Value::Enum {
            enum_name: copy_string(enum_name),
            variant_name: copy_string(variant_name),
            variant_data: copy_data(variant_data),
        },
        Value::Range { start, end, inclusive } => Value::Range {
            start: *start,
            end: *end,
            inclusive: *inclusive,
        },
        Value::OkValue(x) => Value::OkValue(Box::new(copy_value(x))),
        Value::ErrValue(x) => Value::ErrValue(Box::new(copy_value(x))),
    }
}

/// Exact copies of a sequence of values.
pub fn copy_values(xs: &Vec<Value>) -> (r: Vec<Value>)
    ensures
        same_seq(xs@, r@),
    decreases xs,
{
    let mut r: Vec<Value> = Vec::new();
    let mut i: usize = 0;
    while i < xs.len()
        invariant
            i <= xs@.len(),
            r@.len() == i,
            forall|k: int| 0 <= k < i ==> same_value(#[trigger] xs@[k], r@[k]),
        decreases xs@.len() - i,
    {
        proof {
            vstd::std_specs::vec::axiom_vec_index_decreases(*xs, i as int);
        }
        let c = copy_value(&xs[i]);
        r.push(c);
        i = i + 1;
    }
    r
}

/// Exact copies of an association list.
pub fn copy_entries(xs: &Vec<(String, Value)>) -> (r: Vec<(String, Value)>)
    ensures
        same_entries(xs@, r@),
    decreases xs,
{
    let mut r: Vec<(String, Value)> = Vec::new();
    let mut i: usize = 0;
    while i < xs.len()
        invariant
            i <= xs@.len(),
            r@.len() == i,
            forall|k: int|
                0 <= k < i ==> (#[trigger] xs@[k]).0@ == r@[k].0@ && same_value(xs@[k].1, r@[k].1),
        decreases xs@.len() - i,
    {
        proof {
            vstd::std_specs::vec::axiom_vec_index_decreases(*xs, i as int);
        }
        let k = copy_string(&xs[i].0);
        let c = copy_value(&xs[i].1);
        r.push((k, c));
        i = i + 1;
    }
    r
}

/// An exact copy of an enum payload.
pub fn copy_data(d: &EnumVariantData) -> (r: EnumVariantData)
    ensures
        same_data(*d, r),
    decreases d,
{
    match d {
        EnumVariantData::Unit => EnumVariantData::Unit,
        EnumVariantData::Tuple(xs) => EnumVariantData::Tuple(copy_values(xs)),
        EnumVariantData::Struct(xs) => EnumVariantData::Struct(copy_entries(xs)),
    }
}


/// Structural equality of two values (the language's `==` on values of the
/// same shape).
pub fn values_equal(a: &Value, b: &Value) -> (r: bool)
    ensures
        r == value_eq(*a, *b),
    decreases a,
{
    match (a, b) {
        (Value::Unit, Value::Unit) => true,
        (Value::Integer(x), Value::Integer(y)) => *x == *y,
        (Value::Float(x), Value::Float(y)) => float_bits_eq(*x, *y),
        (Value::Boolean(x), Value::Boolean(y)) => *x == *y,
        (Value::String(x), Value::String(y)) => *x == *y,
        (Value::List(xs), Value::List(ys)) => sequences_equal(xs, ys),
        (Value::Tuple(xs), Value::Tuple(ys)) => sequences_equal(xs, ys),
        (Value::Dict(xs), Value::Dict(ys)) => entries_equal(xs, ys),
        (Value::Struct { struct_name: n, fields: xs }, Value::Struct { struct_name: m, fields: ys }) => {
            *n == *m && entries_equal(xs, ys)
        },
        (
            Value::Enum { enum_name: n, variant_name: v, variant_data: d },
            Value::Enum { enum_name: m, variant_name: w, variant_data: e },
        ) => *n == *m && *v == *w && data_equal(d, e),
        (
            Value::Range { start: s1, end: e1, inclusive: i1 },
            Value::Range { start: s2, end: e2, inclusive: i2 },
        ) => *s1 == *s2 && *e1 == *e2 && *i1 == *i2,
        (Value::OkValue(x), Value::OkValue(y)) => values_equal(x, y),
        (Value::ErrValue(x), Value::ErrValue(y)) => values_equal(x, y),
        _ => false,
    }
}

/// Element-wise structural equality.
pub fn sequences_equal(xs: &Vec<Value>, ys: &Vec<Value>) -> (r: bool)
    ensures
        r == seq_eq(xs@, ys@),
    decreases xs,
{
    if xs.len() != ys.len() {
        return false;
    }
    let mut i: usize = 0;
    while i < xs.len()
        invariant
            i <= xs@.len() == ys@.len(),
            forall|k: int| 0 <= k < i ==> value_eq(#[trigger] xs@[k], ys@[k]),
        decreases xs@.len() - i,
    {
        proof {
            vstd::std_specs::vec::axiom_vec_index_decreases(*xs, i as int);
        }
        if !values_equal(&xs[i], &ys[i]) {
            return false;
        }
        i = i + 1;
    }
    true
}

/// Equality of association lists as maps.
pub fn entries_equal(xs: &Vec<(String, Value)>, ys: &Vec<(String, Value)>) -> (r: bool)
    ensures
        r == entries_eq(xs@, ys@),
    decreases xs,
{
    if xs.len() != ys.len() {
        return false;
    }
    let mut i: usize = 0;
    while i < xs.len()
        invariant
            i <= xs@.len() == ys@.len(),
            forall|k: int| 0 <= k < i ==> has_equal_entry(ys@, #[trigger] xs@[k]),
        decreases xs@.len() - i,
    {
        proof {
            vstd::std_specs::vec::axiom_vec_index_decreases(*xs, i as int);
        }
        let found = find_equal_entry(ys, &xs[i]);
        if !found {
            return false;
        }
        i = i + 1;
    }
    true
}

/// Whether `ys` holds an entry with the key of `e` and a value equal to its value.
pub fn find_equal_entry(ys: &Vec<(String, Value)>, e: &(String, Value)) -> (r: bool)
    ensures
        r == has_equal_entry(ys@, *e),
    decreases e,
{
    let mut j: usize = 0;
    while j < ys.len()
        invariant
            j <= ys@.len(),
            forall|l: int| 0 <= l < j ==> !((#[trigger] ys@[l]).0@ == e.0@ && value_eq(e.1, ys@[l].1)),
        decreases ys@.len() - j,
    {
        if ys[j].0 == e.0 && values_equal(&e.1, &ys[j].1) {
            return true;
        }
        j = j + 1;
    }
    false
}

/// Equality of enum payloads.
pub fn data_equal(d: &EnumVariantData, e: &EnumVariantData) -> (r: bool)
    ensures
        r == data_eq(*d, *e),
    decreases d,
{
    match (d, e) {
        (EnumVariantData::Unit, EnumVariantData::Unit) => true,
        (EnumVariantData::Tuple(xs), EnumVariantData::Tuple(ys)) => sequences_equal(xs, ys),
        (EnumVariantData::Struct(xs), EnumVariantData::Struct(ys)) => entries_equal(xs, ys),
        _ => false,
    }
}

/// The name of a value's type, as error messages print it.
pub fn value_kind_name(v: &Value) -> (r: String)
    ensures
        r@ == kind_name(*v),
{
    match v {
        Value::Unit => owned("Unit"),
        Value::Integer(_) => owned("Int"),
        Value::Float(_) => owned("Float"),
        Value::Boolean(_) => owned("Bool"),
        Value::String(_) => owned("String"),
        Value::List(_) => owned("List"),
        Value::Tuple(_) => owned("Tuple"),
        Value::Dict(_) => owned("Map"),
        Value::Struct { struct_name, .. } => copy_string(struct_name),
        Value::Enum { enum_name, .. } => copy_string(enum_name),
        Value::Range { .. } => owned("Range"),
        Value::OkValue(_) => owned("Result"),
        Value::ErrValue(_) => owned("Result"),
    }
}


impl Clone for Value {
    /// An exact copy.
    fn clone(&self) -> (r: Self)
        ensures
            same_value(*self, r),
    {
        copy_value(self)
    }
}

} // verus!
