//! Pattern matching: the single matcher used by `match` arms, `let`
//! destructuring, and function-call binding. On success the bindings a
//! pattern introduces are added, in order; a failed match binds nothing.

use vstd::prelude::*;
use crate::ast::{EnumVariantData, Pattern, Value};
use crate::errors::InterpreterError;
use crate::ops::str_lt;
use crate::text::chars_of;
use crate::value::{copy_string, copy_value, same_seq, same_value, value_eq, values_equal};

verus! {

/// What a name gets bound to: a piece of the matched value, or the list
/// of the elements a rest pattern collects.
pub enum Bound {
    One(Value),
    Many(Seq<Value>),
}

/// A binding a successful match introduces.
pub type Binding = (Seq<char>, Bound);

/// Whether the runtime value `v` holds what `b` describes.
pub open spec fn bound_holds(b: Bound, v: Value) -> bool {
    match b {
        Bound::One(x) => same_value(x, v),
        Bound::Many(xs) => v matches Value::List(ys) && same_seq(xs, ys@),
    }
}

/// Whether a runtime binding is the one a spec binding describes.
pub open spec fn binding_holds(b: Binding, e: (String, Value)) -> bool {
    e.0@ == b.0 && bound_holds(b.1, e.1)
}

/// Whether runtime bindings are, entry by entry, the spec bindings `bs`.
pub open spec fn bindings_hold(bs: Seq<Binding>, es: Seq<(String, Value)>) -> bool {
    bs.len() == es.len() && forall|i: int| 0 <= i < bs.len() ==> binding_holds(#[trigger] bs[i], es[i])
}

/// The value of a declared unit variant named `name`, when the scope binds
/// that name to a unit enum value (first entry wins).
pub open spec fn unit_lookup(units: Seq<(String, Value)>, name: Seq<char>) -> Option<Value>
    decreases units.len(),
{
    if units.len() == 0 {
        None
    } else if units[0].0@ == name && units[0].1 matches Value::Enum {
        variant_data: EnumVariantData::Unit,
        ..
    } {
        Some(units[0].1)
    } else {
        unit_lookup(units.drop_first(), name)
    }
}

/// The first character of a string, or NUL when it is empty.
pub open spec fn first_char(s: Seq<char>) -> char {
    if s.len() == 0 { '\0' } else { s[0] }
}

/// The value under `name` in an association list (first entry wins).
pub open spec fn field_lookup(fields: Seq<(String, Value)>, name: Seq<char>) -> Option<Value>
    decreases fields.len(),
{
    if fields.len() == 0 {
        None
    } else if fields[0].0@ == name {
        Some(fields[0].1)
    } else {
        field_lookup(fields.drop_first(), name)
    }
}

/// How many fields have a name ordering strictly before `name`.
pub open spec fn name_rank(fields: Seq<(String, Value)>, name: Seq<char>) -> nat
    decreases fields.len(),
{
    if fields.len() == 0 {
        0
    } else {
        name_rank(fields.drop_last(), name) + if str_lt(fields.last().0@, name) { 1nat } else { 0nat }
    }
}

/// The index of the first field whose name has rank `r`: the `r`-th field
/// in name order (names are distinct in a struct).
pub open spec fn index_of_rank(fields: Seq<(String, Value)>, r: nat, from: int) -> Option<int>
    decreases fields.len() - from,
{
    if from >= fields.len() || from < 0 {
        None
    } else if name_rank(fields, fields[from].0@) == r {
        Some(from)
    } else {
        index_of_rank(fields, r, from + 1)
    }
}

/// Whether a range pattern's integer bounds admit `n`.
pub open spec fn int_in_range(lo: i64, hi: i64, inclusive: bool, n: i64) -> bool {
    if inclusive { lo <= n && n <= hi } else { lo <= n && n < hi }
}

/// Whether a range pattern's character bounds admit `c`.
pub open spec fn char_in_range(lo: char, hi: char, inclusive: bool, c: char) -> bool {
    if inclusive {
        (lo as u32) <= (c as u32) && (c as u32) <= (hi as u32)
    } else {
        (lo as u32) <= (c as u32) && (c as u32) < (hi as u32)
    }
}

/// The bindings `p` introduces when it matches `v`, in order, or `None`
/// when it does not match.
pub open spec fn match_spec(p: Pattern, v: Value, units: Seq<(String, Value)>) -> Option<Seq<Binding>>
    decreases p,
{
    match p {
        Pattern::Literal(lit) => if value_eq(lit, v) { Some(seq![]) } else { None },
        Pattern::Identifier(name) => match unit_lookup(units, name@) {
            Some(u) => if value_eq(u, v) { Some(seq![]) } else { None },
            None => Some(seq![(name@, Bound::One(v))]),
        },
        Pattern::Wildcard => Some(seq![]),
        Pattern::List { patterns, rest } => match v {
            Value::List(values) => match rest {
                Some(rest_name) => if patterns@.len() > values@.len() {
                    None
                } else {
                    match match_all(patterns@, values@.take(patterns@.len() as int), units) {
                        Some(bs) => Some(
                            bs.push((rest_name@, Bound::Many(values@.skip(patterns@.len() as int)))),
                        ),
                        None => None,
                    }
                },
                None => if patterns@.len() != values@.len() {
                    None
                } else {
                    match_all(patterns@, values@, units)
                },
            },
            _ => None,
        },
        Pattern::Tuple(patterns) => match v {
            Value::Tuple(values) => if patterns@.len() != values@.len() {
                None
            } else {
                match_all(patterns@, values@, units)
            },
            _ => None,
        },
        Pattern::OkPattern(inner) => match v {
            Value::OkValue(x) => match_spec(*inner, *x, units),
            _ => None,
        },
        Pattern::ErrPattern(inner) => match v {
            Value::ErrValue(x) => match_spec(*inner, *x, units),
            _ => None,
        },
        Pattern::EnumVariant { variant_name, patterns } => match v {
            Value::Enum { variant_name: val_variant, variant_data, .. } => if variant_name@
                != val_variant@ {
                None
            } else {
                match variant_data {
                    EnumVariantData::Unit => if patterns@.len() == 0 { Some(seq![]) } else { None },
                    EnumVariantData::Tuple(values) => if patterns@.len() != values@.len() {
                        None
                    } else {
                        match_all(patterns@, values@, units)
                    },
                    EnumVariantData::Struct(fields) => if patterns@.len() != fields@.len() {
                        None
                    } else {
                        match_ranked(patterns@, fields@, units)
                    },
                }
            },
            Value::Tuple(values) => if patterns@.len() != values@.len() {
                None
            } else {
                match_all(patterns@, values@, units)
            },
            _ => None,
        },
        Pattern::Struct { field_patterns, .. } => match v {
            Value::Struct { fields, .. } => match_fields(field_patterns@, fields@, units),
            _ => None,
        },
        Pattern::AnonymousStruct { field_patterns } => match v {
            Value::Struct { fields, .. } => match_fields(field_patterns@, fields@, units),
            _ => None,
        },
        Pattern::Range { start, end, inclusive } => match v {
            Value::Integer(n) => match (*start, *end) {
                (Pattern::Literal(Value::Integer(lo)), Pattern::Literal(Value::Integer(hi))) =>
                    if int_in_range(lo, hi, inclusive, n) { Some(seq![]) } else { None },
                _ => None,
            },
            Value::String(s) => match (*start, *end) {
                (Pattern::Literal(Value::String(lo)), Pattern::Literal(Value::String(hi))) =>
                    if char_in_range(first_char(lo@), first_char(hi@), inclusive, first_char(s@)) {
                    Some(seq![])
                } else {
                    None
                },
                _ => None,
            },
            _ => None,
        },
        Pattern::Or { alternatives } => match_first(alternatives@, v, units),
        Pattern::Guarded { pattern, .. } => match_spec(*pattern, v, units),
        Pattern::Rest(_) => None,
    }
}

/// Matching patterns against values pairwise (same length), left to right.
pub open spec fn match_all(ps: Seq<Pattern>, vs: Seq<Value>, units: Seq<(String, Value)>) -> Option<
    Seq<Binding>,
>
    decreases ps,
{
    if ps.len() == 0 {
        Some(seq![])
    } else {
        match match_all(ps.drop_last(), vs.take(ps.len() - 1), units) {
            Some(bs) => match match_spec(ps.last(), vs[ps.len() - 1], units) {
                Some(more) => Some(bs + more),
                None => None,
            },
            None => None,
        }
    }
}

/// Matching named field patterns against struct fields, in pattern order; a
/// missing field fails the match.
pub open spec fn match_fields(
    fps: Seq<(String, Pattern)>,
    fields: Seq<(String, Value)>,
    units: Seq<(String, Value)>,
) -> Option<Seq<Binding>>
    decreases fps,
{
    if fps.len() == 0 {
        Some(seq![])
    } else {
        match match_fields(fps.drop_last(), fields, units) {
            Some(bs) => match field_lookup(fields, fps.last().0@) {
                Some(fv) => match match_spec(fps.last().1, fv, units) {
                    Some(more) => Some(bs + more),
                    None => None,
                },
                None => None,
            },
            None => None,
        }
    }
}

/// Matching positional patterns against struct-variant fields taken in
/// name order.
pub open spec fn match_ranked(
    ps: Seq<Pattern>,
    fields: Seq<(String, Value)>,
    units: Seq<(String, Value)>,
) -> Option<Seq<Binding>>
    decreases ps,
{
    if ps.len() == 0 {
        Some(seq![])
    } else {
        match match_ranked(ps.drop_last(), fields, units) {
            Some(bs) => match index_of_rank(fields, (ps.len() - 1) as nat, 0) {
                Some(k) => match match_spec(ps.last(), fields[k].1, units) {
                    Some(more) => Some(bs + more),
                    None => None,
                },
                None => None,
            },
            None => None,
        }
    }
}

/// The bindings of the first alternative that matches.
pub open spec fn match_first(alts: Seq<Pattern>, v: Value, units: Seq<(String, Value)>) -> Option<
    Seq<Binding>,
>
    decreases alts,
{
    if alts.len() == 0 {
        None
    } else {
        match match_spec(alts[0], v, units) {
            Some(bs) => Some(bs),
            None => match_first(alts.drop_first(), v, units),
        }
    }
}


proof fn lemma_match_all_step(ps: Seq<Pattern>, vs: Seq<Value>, units: Seq<(String, Value)>, i: int)
    requires
        0 <= i < ps.len(),
        i < vs.len(),
    ensures
        match_all(ps.take(i + 1), vs.take(i + 1), units) == match match_all(
            ps.take(i),
            vs.take(i),
            units,
        ) {
            Some(bs) => match match_spec(ps[i], vs[i], units) {
                Some(more) => Some(bs + more),
                None => None,
            },
            None => None,
        },
{
    assert(ps.take(i + 1).drop_last() =~= ps.take(i));
    assert(vs.take(i + 1).take(i) =~= vs.take(i));
}

proof fn lemma_match_all_none_grows(ps: Seq<Pattern>, vs: Seq<Value>, units: Seq<(String, Value)>, i: int, j: int)
    requires
        0 <= i <= j <= ps.len(),
        j <= vs.len(),
        match_all(ps.take(i), vs.take(i), units) is None,
    ensures
        match_all(ps.take(j), vs.take(j), units) is None,
    decreases j - i,
{
    if i < j {
        lemma_match_all_step(ps, vs, units, i);
        lemma_match_all_none_grows(ps, vs, units, i + 1, j);
    }
}

proof fn lemma_match_fields_step(fps: Seq<(String, Pattern)>, fields: Seq<(String, Value)>, units: Seq<(String, Value)>, i: int)
    requires
        0 <= i < fps.len(),
    ensures
        match_fields(fps.take(i + 1), fields, units) == match match_fields(fps.take(i), fields, units) {
            Some(bs) => match field_lookup(fields, fps[i].0@) {
                Some(fv) => match match_spec(fps[i].1, fv, units) {
                    Some(more) => Some(bs + more),
                    None => None,
                },
                None => None,
            },
            None => None,
        },
{
    assert(fps.take(i + 1).drop_last() =~= fps.take(i));
}

proof fn lemma_match_fields_none_grows(fps: Seq<(String, Pattern)>, fields: Seq<(String, Value)>, units: Seq<(String, Value)>, i: int, j: int)
    requires
        0 <= i <= j <= fps.len(),
        match_fields(fps.take(i), fields, units) is None,
    ensures
        match_fields(fps.take(j), fields, units) is None,
    decreases j - i,
{
    if i < j {
        lemma_match_fields_step(fps, fields, units, i);
        lemma_match_fields_none_grows(fps, fields, units, i + 1, j);
    }
}

proof fn lemma_match_ranked_step(ps: Seq<Pattern>, fields: Seq<(String, Value)>, units: Seq<(String, Value)>, i: int)
    requires
        0 <= i < ps.len(),
    ensures
        match_ranked(ps.take(i + 1), fields, units) == match match_ranked(ps.take(i), fields, units) {
            Some(bs) => match index_of_rank(fields, i as nat, 0) {
                Some(k) => match match_spec(ps[i], fields[k].1, units) {
                    Some(more) => Some(bs + more),
                    None => None,
                },
                None => None,
            },
            None => None,
        },
{
    assert(ps.take(i + 1).drop_last() =~= ps.take(i));
}

proof fn lemma_match_ranked_none_grows(ps: Seq<Pattern>, fields: Seq<(String, Value)>, units: Seq<(String, Value)>, i: int, j: int)
    requires
        0 <= i <= j <= ps.len(),
        match_ranked(ps.take(i), fields, units) is None,
    ensures
        match_ranked(ps.take(j), fields, units) is None,
    decreases j - i,
{
    if i < j {
        lemma_match_ranked_step(ps, fields, units, i);
        lemma_match_ranked_none_grows(ps, fields, units, i + 1, j);
    }
}

proof fn lemma_bindings_append(bs: Seq<Binding>, es: Seq<(String, Value)>, more: Seq<Binding>, es2: Seq<(String, Value)>)
    requires
        bindings_hold(bs, es),
        bindings_hold(more, es2),
    ensures
        bindings_hold(bs + more, es + es2),
{
    assert forall|i: int| 0 <= i < (bs + more).len() implies binding_holds(#[trigger] (bs + more)[i], (es + es2)[i]) by {
        if i < bs.len() {
            assert(binding_holds(bs[i], es[i]));
        } else {
            assert(binding_holds(more[i - bs.len()], es2[i - bs.len()]));
        }
    }
}

/// Appends `more` to `acc`.
fn append_bindings(acc: &mut Vec<(String, Value)>, more: Vec<(String, Value)>)
    ensures
        final(acc)@ == old(acc)@ + more@,
{
    let mut more = more;
    acc.append(&mut more);
}

/// Index of the unit variant bound to `name` in `units`, if any.
fn find_unit(units: &Vec<(String, Value)>, name: &String) -> (r: Option<usize>)
    ensures
        match r {
            Some(k) => k < units@.len() && unit_lookup(units@, name@) == Some(units@[k as int].1),
            None => unit_lookup(units@, name@) is None,
        },
{
    let mut i: usize = 0;
    proof {
        assert(units@.skip(0) =~= units@);
    }
    while i < units.len()
        invariant
            i <= units@.len(),
            unit_lookup(units@, name@) == unit_lookup(units@.skip(i as int), name@),
        decreases units@.len() - i,
    {
        proof {
            assert(units@.skip(i as int).drop_first() =~= units@.skip(i + 1));
            assert(units@.skip(i as int)[0] == units@[i as int]);
        }
        let is_unit_enum = match &units[i].1 {
            Value::Enum { variant_data: EnumVariantData::Unit, .. } => true,
            _ => false,
        };
        if units[i].0 == *name && is_unit_enum {
            return Some(i);
        }
        i = i + 1;
    }
    None
}

/// Index of the field named `name`, if any (first entry wins).
fn find_field(fields: &Vec<(String, Value)>, name: &String) -> (r: Option<usize>)
    ensures
        match r {
            Some(k) => k < fields@.len() && field_lookup(fields@, name@) == Some(fields@[k as int].1),
            None => field_lookup(fields@, name@) is None,
        },
{
    let mut i: usize = 0;
    proof {
        assert(fields@.skip(0) =~= fields@);
    }
    while i < fields.len()
        invariant
            i <= fields@.len(),
            field_lookup(fields@, name@) == field_lookup(fields@.skip(i as int), name@),
        decreases fields@.len() - i,
    {
        proof {
            assert(fields@.skip(i as int).drop_first() =~= fields@.skip(i + 1));
            assert(fields@.skip(i as int)[0] == fields@[i as int]);
        }
        if fields[i].0 == *name {
            return Some(i);
        }
        i = i + 1;
    }
    None
}

/// How many fields have a name ordering strictly before `name`.
fn rank_of(fields: &Vec<(String, Value)>, name: &String) -> (r: usize)
    ensures
        r == name_rank(fields@, name@),
{
    let mut i: usize = 0;
    let mut count: usize = 0;
    proof {
        assert(fields@.take(0) =~= Seq::<(String, Value)>::empty());
    }
    while i < fields.len()
        invariant
            i <= fields@.len(),
            count == name_rank(fields@.take(i as int), name@),
            count <= i,
        decreases fields@.len() - i,
    {
        proof {
            assert(fields@.take(i + 1).drop_last() =~= fields@.take(i as int));
        }
        if crate::ops::string_less(&fields[i].0, name) {
            count = count + 1;
        }
        i = i + 1;
    }
    proof {
        assert(fields@.take(fields@.len() as int) =~= fields@);
    }
    count
}

/// Index of the field of rank `r`, the `r`-th in name order.
fn find_rank(fields: &Vec<(String, Value)>, r: usize) -> (k: Option<usize>)
    ensures
        match k {
            Some(k) => k < fields@.len() && index_of_rank(fields@, r as nat, 0) == Some(k as int),
            None => index_of_rank(fields@, r as nat, 0) is None,
        },
{
    let mut i: usize = 0;
    while i < fields.len()
        invariant
            i <= fields@.len(),
            index_of_rank(fields@, r as nat, 0) == index_of_rank(fields@, r as nat, i as int),
        decreases fields@.len() - i,
    {
        if rank_of(fields, &fields[i].0) == r {
            return Some(i);
        }
        i = i + 1;
    }
    None
}

/// Exact copies of `vs[from..]`, as a list value.
fn copy_tail(vs: &Vec<Value>, from: usize) -> (r: Value)
    requires
        from <= vs@.len(),
    ensures
        bound_holds(Bound::Many(vs@.skip(from as int)), r),
{
    let mut out: Vec<Value> = Vec::new();
    let mut i: usize = from;
    while i < vs.len()
        invariant
            from <= i <= vs@.len(),
            out@.len() == i - from,
            forall|k: int| 0 <= k < out@.len() ==> same_value(vs@[from + k], #[trigger] out@[k]),
        decreases vs@.len() - i,
    {
        let c = copy_value(&vs[i]);
        out.push(c);
        i = i + 1;
    }
    Value::List(out)
}

/// The bindings `p` introduces when it matches `v`, or `None` when it does not.
pub fn collect_bindings(p: &Pattern, v: &Value, units: &Vec<(String, Value)>) -> (r: Option<Vec<(String, Value)>>)
    ensures
        match (r, match_spec(*p, *v, units@)) {
            (None, None) => true,
            (Some(es), Some(bs)) => bindings_hold(bs, es@),
            _ => false,
        },
    decreases p,
{
    match p {
        Pattern::Literal(lit) => if values_equal(lit, v) { Some(Vec::new()) } else { None },
        Pattern::Identifier(name) => match find_unit(units, name) {
            Some(k) => if values_equal(&units[k].1, v) { Some(Vec::new()) } else { None },
            None => {
                let mut out: Vec<(String, Value)> = Vec::new();
                out.push((copy_string(name), copy_value(v)));
                Some(out)
            },
        },
        Pattern::Wildcard => Some(Vec::new()),
        Pattern::List { patterns, rest } => match v {
            Value::List(values) => match rest {
                Some(rest_name) => if patterns.len() > values.len() {
                    None
                } else {
                    match match_each(patterns, values, units) {
                        Some(mut out) => {
                            let tail = copy_tail(values, patterns.len());
                            let ghost bs = match_all(patterns@, values@.take(patterns@.len() as int), units@).unwrap();
                            let ghost before = out@;
                            out.push((copy_string(rest_name), tail));
                            proof {
                                let b = (rest_name@, Bound::Many(values@.skip(patterns@.len() as int)));
                                assert forall|i: int| 0 <= i < bs.push(b).len() implies binding_holds(#[trigger] bs.push(b)[i], out@[i]) by {
                                    if i < bs.len() {
                                        assert(binding_holds(bs[i], before[i]));
                                    }
                                }
                            }
                            Some(out)
                        },
                        None => None,
                    }
                },
                None => if patterns.len() != values.len() {
                    None
                } else {
                    proof {
                        assert(values@.take(values@.len() as int) =~= values@);
                    }
                    match_each(patterns, values, units)
                },
            },
            _ => None,
        },
        Pattern::Tuple(patterns) => match v {
            Value::Tuple(values) => if patterns.len() != values.len() {
                None
            } else {
                proof {
                    assert(values@.take(values@.len() as int) =~= values@);
                }
                match_each(patterns, values, units)
            },
            _ => None,
        },
        Pattern::OkPattern(inner) => match v {
            Value::OkValue(x) => collect_bindings(inner, x, units),
            _ => None,
        },
        Pattern::ErrPattern(inner) => match v {
            Value::ErrValue(x) => collect_bindings(inner, x, units),
            _ => None,
        },
        Pattern::EnumVariant { variant_name, patterns } => match v {
            Value::Enum { variant_name: val_variant, variant_data, .. } => if !(*variant_name
                == *val_variant) {
                None
            } else {
                match variant_data {
                    EnumVariantData::Unit => if patterns.len() == 0 {
                        Some(Vec::new())
                    } else {
                        None
                    },
                    EnumVariantData::Tuple(values) => if patterns.len() != values.len() {
                        None
                    } else {
                        proof {
                            assert(values@.take(values@.len() as int) =~= values@);
                        }
                        match_each(patterns, values, units)
                    },
                    EnumVariantData::Struct(fields) => if patterns.len() != fields.len() {
                        None
                    } else {
                        match_by_rank(patterns, fields, units)
                    },
                }
            },
            Value::Tuple(values) => if patterns.len() != values.len() {
                None
            } else {
                proof {
                    assert(values@.take(values@.len() as int) =~= values@);
                }
                match_each(patterns, values, units)
            },
            _ => None,
        },
        Pattern::Struct { field_patterns, .. } => match v {
            Value::Struct { fields, .. } => match_named_fields(field_patterns, fields, units),
            _ => None,
        },
        Pattern::AnonymousStruct { field_patterns } => match v {
            Value::Struct { fields, .. } => match_named_fields(field_patterns, fields, units),
            _ => None,
        },
        Pattern::Range { start, end, inclusive } => match v {
            Value::Integer(n) => match (&**start, &**end) {
                (Pattern::Literal(Value::Integer(lo)), Pattern::Literal(Value::Integer(hi))) => {
                    let ok = if *inclusive {
                        *lo <= *n && *n <= *hi
                    } else {
                        *lo <= *n && *n < *hi
                    };
                    if ok { Some(Vec::new()) } else { None }
                },
                _ => None,
            },
            Value::String(s) => match (&**start, &**end) {
                (Pattern::Literal(Value::String(lo)), Pattern::Literal(Value::String(hi))) => {
                    let a = first_char_of(lo);
                    let b = first_char_of(hi);
                    let c = first_char_of(s);
                    let ok = if *inclusive {
                        (a as u32) <= (c as u32) && (c as u32) <= (b as u32)
                    } else {
                        (a as u32) <= (c as u32) && (c as u32) < (b as u32)
                    };
                    if ok { Some(Vec::new()) } else { None }
                },
                _ => None,
            },
            _ => None,
        },
        Pattern::Or { alternatives } => match_first_alternative(alternatives, v, units),
        Pattern::Guarded { pattern, .. } => collect_bindings(pattern, v, units),
        Pattern::Rest(_) => None,
    }
}

/// The first character of a string, or NUL when it is empty.
fn first_char_of(s: &String) -> (c: char)
    ensures
        c == first_char(s@),
{
    let v = chars_of(s.as_str());
    if v.len() == 0 { '\0' } else { v[0] }
}

/// Matches `ps[i]` against `vs[i]` for every pattern, left to right.
fn match_each(ps: &Vec<Pattern>, vs: &Vec<Value>, units: &Vec<(String, Value)>) -> (r: Option<Vec<(String, Value)>>)
    requires
        ps@.len() <= vs@.len(),
    ensures
        match (r, match_all(ps@, vs@.take(ps@.len() as int), units@)) {
            (None, None) => true,
            (Some(es), Some(bs)) => bindings_hold(bs, es@),
            _ => false,
        },
    decreases ps,
{
    let mut acc: Vec<(String, Value)> = Vec::new();
    let mut i: usize = 0;
    proof {
        assert(ps@.take(0) =~= Seq::<Pattern>::empty());
    }
    while i < ps.len()
        invariant
            i <= ps@.len() <= vs@.len(),
            match_all(ps@.take(i as int), vs@.take(i as int), units@) matches Some(bs) && bindings_hold(bs, acc@),
        decreases ps@.len() - i,
    {
        proof {
            vstd::std_specs::vec::axiom_vec_index_decreases(*ps, i as int);
            lemma_match_all_step(ps@, vs@, units@, i as int);
        }
        let ghost bs = match_all(ps@.take(i as int), vs@.take(i as int), units@).unwrap();
        match collect_bindings(&ps[i], &vs[i], units) {
            Some(more) => {
                let ghost before = acc@;
                proof {
                    let m = match_spec(ps@[i as int], vs@[i as int], units@).unwrap();
                    lemma_bindings_append(bs, before, m, more@);
                }
                append_bindings(&mut acc, more);
            },
            None => {
                proof {
                    lemma_match_all_none_grows(ps@, vs@, units@, i + 1, ps@.len() as int);
                    assert(ps@.take(ps@.len() as int) =~= ps@);
                    assert(vs@.take(ps@.len() as int).take(ps@.len() as int) =~= vs@.take(ps@.len() as int));
                }
                return None;
            },
        }
        i = i + 1;
    }
    proof {
        assert(ps@.take(ps@.len() as int) =~= ps@);
        assert(vs@.take(ps@.len() as int).take(ps@.len() as int) =~= vs@.take(ps@.len() as int));
    }
    Some(acc)
}

/// Matches named field patterns against struct fields, in pattern order.
fn match_named_fields(
    fps: &Vec<(String, Pattern)>,
    fields: &Vec<(String, Value)>,
    units: &Vec<(String, Value)>,
) -> (r: Option<Vec<(String, Value)>>)
    ensures
        match (r, match_fields(fps@, fields@, units@)) {
            (None, None) => true,
            (Some(es), Some(bs)) => bindings_hold(bs, es@),
            _ => false,
        },
    decreases fps,
{
    let mut acc: Vec<(String, Value)> = Vec::new();
    let mut i: usize = 0;
    proof {
        assert(fps@.take(0) =~= Seq::<(String, Pattern)>::empty());
    }
    while i < fps.len()
        invariant
            i <= fps@.len(),
            match_fields(fps@.take(i as int), fields@, units@) matches Some(bs) && bindings_hold(bs, acc@),
        decreases fps@.len() - i,
    {
        proof {
            vstd::std_specs::vec::axiom_vec_index_decreases(*fps, i as int);
            lemma_match_fields_step(fps@, fields@, units@, i as int);
        }
        let ghost bs = match_fields(fps@.take(i as int), fields@, units@).unwrap();
        match find_field(fields, &fps[i].0) {
            Some(k) => {
                match collect_bindings(&fps[i].1, &fields[k].1, units) {
                    Some(more) => {
                        let ghost before = acc@;
                        proof {
                            let m = match_spec(fps@[i as int].1, fields@[k as int].1, units@).unwrap();
                            lemma_bindings_append(bs, before, m, more@);
                        }
                        append_bindings(&mut acc, more);
                    },
                    None => {
                        proof {
                            lemma_match_fields_none_grows(fps@, fields@, units@, i + 1, fps@.len() as int);
                            assert(fps@.take(fps@.len() as int) =~= fps@);
                        }
                        return None;
                    },
                }
            },
            None => {
                proof {
                    lemma_match_fields_none_grows(fps@, fields@, units@, i + 1, fps@.len() as int);
                    assert(fps@.take(fps@.len() as int) =~= fps@);
                }
                return None;
            },
        }
        i = i + 1;
    }
    proof {
        assert(fps@.take(fps@.len() as int) =~= fps@);
    }
    Some(acc)
}

/// Matches positional patterns against struct-variant fields in name order.
fn match_by_rank(ps: &Vec<Pattern>, fields: &Vec<(String, Value)>, units: &Vec<(String, Value)>) -> (r: Option<Vec<(String, Value)>>)
    ensures
        match (r, match_ranked(ps@, fields@, units@)) {
            (None, None) => true,
            (Some(es), Some(bs)) => bindings_hold(bs, es@),
            _ => false,
        },
    decreases ps,
{
    let mut acc: Vec<(String, Value)> = Vec::new();
    let mut i: usize = 0;
    proof {
        assert(ps@.take(0) =~= Seq::<Pattern>::empty());
    }
    while i < ps.len()
        invariant
            i <= ps@.len(),
            match_ranked(ps@.take(i as int), fields@, units@) matches Some(bs) && bindings_hold(bs, acc@),
        decreases ps@.len() - i,
    {
        proof {
            vstd::std_specs::vec::axiom_vec_index_decreases(*ps, i as int);
            lemma_match_ranked_step(ps@, fields@, units@, i as int);
        }
        let ghost bs = match_ranked(ps@.take(i as int), fields@, units@).unwrap();
        match find_rank(fields, i) {
            Some(k) => {
                match collect_bindings(&ps[i], &fields[k].1, units) {
                    Some(more) => {
                        let ghost before = acc@;
                        proof {
                            let m = match_spec(ps@[i as int], fields@[k as int].1, units@).unwrap();
                            lemma_bindings_append(bs, before, m, more@);
                        }
                        append_bindings(&mut acc, more);
                    },
                    None => {
                        proof {
                            lemma_match_ranked_none_grows(ps@, fields@, units@, i + 1, ps@.len() as int);
                            assert(ps@.take(ps@.len() as int) =~= ps@);
                        }
                        return None;
                    },
                }
            },
            None => {
                proof {
                    lemma_match_ranked_none_grows(ps@, fields@, units@, i + 1, ps@.len() as int);
                    assert(ps@.take(ps@.len() as int) =~= ps@);
                }
                return None;
            },
        }
        i = i + 1;
    }
    proof {
        assert(ps@.take(ps@.len() as int) =~= ps@);
    }
    Some(acc)
}

/// The bindings of the first alternative that matches.
fn match_first_alternative(alts: &Vec<Pattern>, v: &Value, units: &Vec<(String, Value)>) -> (r: Option<Vec<(String, Value)>>)
    ensures
        match (r, match_first(alts@, *v, units@)) {
            (None, None) => true,
            (Some(es), Some(bs)) => bindings_hold(bs, es@),
            _ => false,
        },
    decreases alts,
{
    let mut i: usize = 0;
    proof {
        assert(alts@.skip(0) =~= alts@);
    }
    while i < alts.len()
        invariant
            i <= alts@.len(),
            match_first(alts@, *v, units@) == match_first(alts@.skip(i as int), *v, units@),
        decreases alts@.len() - i,
    {
        proof {
            vstd::std_specs::vec::axiom_vec_index_decreases(*alts, i as int);
            assert(alts@.skip(i as int).drop_first() =~= alts@.skip(i + 1));
            assert(alts@.skip(i as int)[0] == alts@[i as int]);
        }
        match collect_bindings(&alts[i], v, units) {
            Some(out) => {
                return Some(out);
            },
            None => {},
        }
        i = i + 1;
    }
    None
}

/// Matches `pattern` against `value`. On success the bindings the pattern
/// introduces are appended to `bindings`, in order, and a later binding of
/// a name shadows an earlier one; on failure `bindings` is left exactly as
/// it was. Names in `units` that are bound to unit enum values are matched
/// by equality rather than bound. The result is always `Ok`.
pub fn pattern_matches_bind(
    pattern: &Pattern,
    value: &Value,
    units: &Vec<(String, Value)>,
    bindings: &mut Vec<(String, Value)>,
) -> (r: Result<bool, InterpreterError>)
    ensures
        r matches Ok(b) && b == (match_spec(*pattern, *value, units@) is Some),
        match match_spec(*pattern, *value, units@) {
            Some(bs) => final(bindings)@.len() == old(bindings)@.len() + bs.len()
                && final(bindings)@.take(old(bindings)@.len() as int) == old(bindings)@
                && bindings_hold(bs, final(bindings)@.skip(old(bindings)@.len() as int)),
            None => final(bindings)@ == old(bindings)@,
        },
{
    match collect_bindings(pattern, value, units) {
        Some(more) => {
            let ghost before = bindings@;
            let ghost added = more@;
            append_bindings(bindings, more);
            proof {
                assert(bindings@.take(before.len() as int) =~= before);
                assert(bindings@.skip(before.len() as int) =~= added);
            }
            Ok(true)
        },
        None => Ok(false),
    }
}


/// An integer range pattern `lo..hi` matches `n` exactly when
/// `lo <= n < hi`, so its end is never matched; `lo..=hi` matches exactly
/// when `lo <= n <= hi`, that is, what `lo..hi` matches and `hi` itself
/// (when `lo <= hi`). A range binds no name.
pub proof fn law_integer_range_pattern(lo: i64, hi: i64, inclusive: bool, n: i64, units: Seq<(String, Value)>)
    ensures
        ({
            let p = Pattern::Range {
                start: Box::new(Pattern::Literal(Value::Integer(lo))),
                end: Box::new(Pattern::Literal(Value::Integer(hi))),
                inclusive,
            };
            &&& (match_spec(p, Value::Integer(n), units) is Some) <==> (lo <= n && if inclusive {
                n <= hi
            } else {
                n < hi
            })
            &&& match_spec(p, Value::Integer(n), units) matches Some(bs) ==> bs.len() == 0
        }),
        match_spec(
            Pattern::Range {
                start: Box::new(Pattern::Literal(Value::Integer(lo))),
                end: Box::new(Pattern::Literal(Value::Integer(hi))),
                inclusive: false,
            },
            Value::Integer(hi),
            units,
        ) is None,
        (match_spec(
            Pattern::Range {
                start: Box::new(Pattern::Literal(Value::Integer(lo))),
                end: Box::new(Pattern::Literal(Value::Integer(hi))),
                inclusive: true,
            },
            Value::Integer(n),
            units,
        ) is Some) <==> ((match_spec(
            Pattern::Range {
                start: Box::new(Pattern::Literal(Value::Integer(lo))),
                end: Box::new(Pattern::Literal(Value::Integer(hi))),
                inclusive: false,
            },
            Value::Integer(n),
            units,
        ) is Some) || (n == hi && lo <= hi)),
{
}

} // verus!
