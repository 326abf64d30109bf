//! Matching call arguments to parameters: positional arguments first,
//! then named ones; named arguments find their parameter by name, and
//! parameters left over take their default at the call boundary. Also the
//! arity check every call makes.

use vstd::prelude::*;
use crate::ast::{Parameter, Value};
use crate::errors::InterpreterError;
use crate::text::{append_str, owned, str_eq};
use crate::value::{copy_value, kind_name, same_value, value_kind_name};
use crate::diagnostics::{with_article, with_article_text};

verus! {

/// One argument position at a call: given by the caller, or to be filled
/// from the parameter's default.
pub enum ArgSlot {
    Given(Value),
    FromDefault,
}

/// The index of the first parameter named `name`.
pub open spec fn param_index(ps: Seq<Parameter>, name: Seq<char>) -> Option<int>
    decreases ps.len(),
{
    if ps.len() == 0 {
        None
    } else if ps[0].name@ == name {
        Some(0)
    } else {
        match param_index(ps.drop_first(), name) {
            Some(i) => Some(i + 1),
            None => None,
        }
    }
}

/// The index of the first named argument called `name`.
pub open spec fn named_index(named: Seq<(String, Value)>, name: Seq<char>) -> Option<int>
    decreases named.len(),
{
    if named.len() == 0 {
        None
    } else if named[0].0@ == name {
        Some(0)
    } else {
        match named_index(named.drop_first(), name) {
            Some(i) => Some(i + 1),
            None => None,
        }
    }
}

/// The first named argument whose parameter was already given
/// positionally (its index among the first `positional` parameters).
pub open spec fn first_conflict(named: Seq<(String, Value)>, ps: Seq<Parameter>, positional: nat) -> Option<
    Seq<char>,
>
    decreases named.len(),
{
    if named.len() == 0 {
        None
    } else if (param_index(ps, named[0].0@) matches Some(pi) && pi < positional) {
        Some(named[0].0@)
    } else {
        first_conflict(named.drop_first(), ps, positional)
    }
}

/// A fill result with `pre` in front of its slots.
pub open spec fn prepend(r: Result<(Seq<ArgSlot>, Seq<(String, Value)>), Seq<char>>, pre: Seq<ArgSlot>) -> Result<
    (Seq<ArgSlot>, Seq<(String, Value)>),
    Seq<char>,
> {
    match r {
        Ok((slots, left)) => Ok((pre + slots, left)),
        Err(m) => Err(m),
    }
}

/// Fills the parameters from `idx` on: each takes the named argument of
/// its name (which is then used up), else its default; the result is the
/// slots and the named arguments left, or the name of the first parameter
/// with neither.
pub open spec fn fill_spec(ps: Seq<Parameter>, idx: nat, named: Seq<(String, Value)>) -> Result<
    (Seq<ArgSlot>, Seq<(String, Value)>),
    Seq<char>,
>
    decreases ps.len() - idx,
{
    if idx >= ps.len() {
        Ok((Seq::empty(), named))
    } else {
        match named_index(named, ps[idx as int].name@) {
            Some(p) => prepend(fill_spec(ps, idx + 1, named.remove(p)), seq![ArgSlot::Given(named[p].1)]),
            None => if ps[idx as int].default_value is Some {
                prepend(fill_spec(ps, idx + 1, named), seq![ArgSlot::FromDefault])
            } else {
                Err(ps[idx as int].name@)
            },
        }
    }
}

/// Nothing in front changes nothing.
proof fn lemma_prepend_empty(r: Result<(Seq<ArgSlot>, Seq<(String, Value)>), Seq<char>>)
    ensures
        prepend(r, Seq::empty()) == r,
{
    if let Ok((slots, left)) = r {
        assert(Seq::<ArgSlot>::empty() + slots =~= slots);
    }
}

/// Putting slots in front twice is putting their concatenation in front.
proof fn lemma_prepend_twice(r: Result<(Seq<ArgSlot>, Seq<(String, Value)>), Seq<char>>, a: Seq<ArgSlot>, b: Seq<ArgSlot>)
    ensures
        prepend(prepend(r, b), a) == prepend(r, a + b),
{
    if let Ok((slots, left)) = r {
        assert(a + (b + slots) =~= (a + b) + slots);
    }
}

/// Names joined with ", ".
pub open spec fn join_names(named: Seq<(String, Value)>) -> Seq<char>
    decreases named.len(),
{
    if named.len() == 0 {
        Seq::empty()
    } else if named.len() == 1 {
        named[0].0@
    } else {
        join_names(named.drop_last()) + ", "@ + named.last().0@
    }
}

/// The slots a call resolves to from its positional slots and named
/// arguments (in source order): for a callee with known parameters, a
/// named argument may not name a parameter given positionally, every
/// parameter past the positional ones takes its named argument or its
/// default, and no named argument may be left over; a callee without
/// parameter information takes the named values after the positional
/// ones. An error is given by its message.
pub open spec fn resolve_spec(positional: Seq<ArgSlot>, named: Seq<(String, Value)>, params: Option<Seq<Parameter>>) -> Result<
    Seq<ArgSlot>,
    Seq<char>,
> {
    match params {
        None => Ok(positional + named.map_values(|e: (String, Value)| ArgSlot::Given(e.1))),
        Some(ps) => match first_conflict(named, ps, positional.len()) {
            Some(n) => Err("Argument '"@ + n + "' specified both positionally and by name"@),
            None => match fill_spec(ps, positional.len(), named) {
                Err(n) => Err("Missing required argument: "@ + n),
                Ok((slots, left)) => if left.len() > 0 {
                    Err("Unrecognized named argument(s): "@ + join_names(left))
                } else {
                    Ok(positional + slots)
                },
            },
        },
    }
}

/// The arguments of a call as they are evaluated, in source order.
pub struct ArgCollector {
    resolved: Vec<ArgSlot>,
    named: Vec<(String, Value)>,
}

impl ArgCollector {
    /// The positional slots so far.
    pub closed spec fn positional(&self) -> Seq<ArgSlot> {
        self.resolved@
    }

    /// The named arguments so far.
    pub closed spec fn named(&self) -> Seq<(String, Value)> {
        self.named@
    }

    /// No argument yet.
    pub fn new() -> (c: Self)
        ensures
            c.positional().len() == 0,
            c.named().len() == 0,
    {
        ArgCollector { resolved: Vec::new(), named: Vec::new() }
    }

    /// Checked before a positional argument is evaluated: it may not come
    /// after a named one.
    pub fn before_positional(&self) -> (r: Result<(), InterpreterError>)
        ensures
            match r {
                Ok(()) => self.named().len() == 0,
                Err(e) => self.named().len() > 0 && (e matches InterpreterError::RuntimeError { message: m }
                    && m@ == "Positional arguments cannot come after named arguments"@),
            },
    {
        if self.named.len() > 0 {
            return Err(InterpreterError::RuntimeError {
                message: owned("Positional arguments cannot come after named arguments"),
            });
        }
        Ok(())
    }

    /// Records an evaluated positional argument.
    pub fn add_positional(&mut self, value: Value)
        ensures
            final(self).positional() == old(self).positional().push(ArgSlot::Given(value)),
            final(self).named() == old(self).named(),
    {
        self.resolved.push(ArgSlot::Given(value));
    }

    /// Records an evaluated named argument; a name given twice fails,
    /// recording nothing.
    pub fn add_named(&mut self, name: String, value: Value) -> (r: Result<(), InterpreterError>)
        ensures
            final(self).positional() == old(self).positional(),
            match r {
                Ok(()) => named_index(old(self).named(), name@) is None && final(self).named() == old(
                    self,
                ).named().push((name, value)),
                Err(e) => named_index(old(self).named(), name@) is Some && final(self).named() == old(
                    self,
                ).named() && (e matches InterpreterError::RuntimeError { message: m } && m@
                    == "Duplicate named argument: "@ + name@),
            },
    {
        match named_position(&self.named, name.as_str()) {
            Some(_) => {
                let mut m = owned("Duplicate named argument: ");
                append_str(&mut m, name.as_str());
                Err(InterpreterError::RuntimeError { message: m })
            },
            None => {
                self.named.push((name, value));
                Ok(())
            },
        }
    }

    /// The slots of the call (see `resolve_spec`); `params` are the
    /// callee's parameters when it is a function of the program.
    pub fn finish(self, params: Option<&Vec<Parameter>>) -> (r: Result<Vec<ArgSlot>, InterpreterError>)
        ensures
            match r {
                Ok(v) => resolve_spec(
                    self.positional(),
                    self.named(),
                    match params {
                        Some(ps) => Some(ps@),
                        None => None,
                    },
                ) == Ok::<Seq<ArgSlot>, Seq<char>>(v@),
                Err(e) => resolve_spec(
                    self.positional(),
                    self.named(),
                    match params {
                        Some(ps) => Some(ps@),
                        None => None,
                    },
                ) matches Err(m) && (e matches InterpreterError::RuntimeError { message: msg } && msg@ == m),
            },
    {
        let ArgCollector { resolved, named } = self;
        let ghost positional = resolved@;
        let ghost named0 = named@;
        match params {
            None => {
                let mut out = resolved;
                let mut rest = named;
                let ghost n = named0.len();
                proof {
                    assert(named0.skip(0) =~= named0);
                    assert(named0.take(0).map_values(|e: (String, Value)| ArgSlot::Given(e.1)) =~= Seq::<
                        ArgSlot,
                    >::empty());
                }
                while rest.len() > 0
                    invariant
                        n == named0.len(),
                        rest@.len() <= n,
                        rest@ == named0.skip(n - rest@.len()),
                        out@ == positional + named0.take(n - rest@.len()).map_values(
                            |e: (String, Value)| ArgSlot::Given(e.1),
                        ),
                    decreases rest@.len(),
                {
                    let ghost t = n - rest@.len();
                    let (_, v) = rest.remove(0);
                    out.push(ArgSlot::Given(v));
                    proof {
                        assert(rest@ =~= named0.skip(t + 1));
                        assert(named0.take(t + 1).map_values(|e: (String, Value)| ArgSlot::Given(e.1)) =~= named0.take(
                            t,
                        ).map_values(|e: (String, Value)| ArgSlot::Given(e.1)).push(ArgSlot::Given(named0[t].1)));
                        assert(out@ =~= positional + named0.take(t + 1).map_values(
                            |e: (String, Value)| ArgSlot::Given(e.1),
                        ));
                    }
                }
                proof {
                    assert(named0.take(n as int) =~= named0);
                }
                Ok(out)
            },
            Some(ps) => {
                match conflict_name(&named, ps, resolved.len()) {
                    Some(n) => {
                        let mut m = owned("Argument '");
                        append_str(&mut m, n.as_str());
                        append_str(&mut m, "' specified both positionally and by name");
                        return Err(InterpreterError::RuntimeError { message: m });
                    },
                    None => {},
                }
                let mut out = resolved;
                let mut left = named;
                let mut idx: usize = out.len();
                let ghost pc = positional.len();
                proof {
                    assert(out@.skip(pc as int) =~= Seq::<ArgSlot>::empty());
                    lemma_prepend_empty(fill_spec(ps@, pc, named0));
                }
                while idx < ps.len()
                    invariant
                        pc == positional.len(),
                        pc <= idx,
                        out@.len() == idx,
                        out@.subrange(0, pc as int) == positional,
                        fill_spec(ps@, pc, named0) == prepend(fill_spec(ps@, idx as nat, left@), out@.skip(pc as int)),
                        first_conflict(named0, ps@, pc) is None,
                        positional == self.positional(),
                        named0 == self.named(),
                        params == Some(ps),
                    decreases ps@.len() - idx,
                {
                    let p = &ps[idx];
                    let ghost before_out = out@;
                    match named_position(&left, p.name.as_str()) {
                        Some(pos) => {
                            let ghost before = left@;
                            let (_, v) = left.remove(pos);
                            let ghost gv = v;
                            out.push(ArgSlot::Given(v));
                            proof {
                                assert(gv == before[pos as int].1);
                                assert(left@ =~= before.remove(pos as int));
                                lemma_prepend_twice(
                                    fill_spec(ps@, (idx + 1) as nat, left@),
                                    before_out.skip(pc as int),
                                    seq![ArgSlot::Given(gv)],
                                );
                                assert(out@.skip(pc as int) =~= before_out.skip(pc as int) + seq![ArgSlot::Given(gv)]);
                                assert(out@.subrange(0, pc as int) =~= before_out.subrange(0, pc as int));
                            }
                        },
                        None => {
                            if p.default_value.is_some() {
                                out.push(ArgSlot::FromDefault);
                                proof {
                                    lemma_prepend_twice(
                                        fill_spec(ps@, (idx + 1) as nat, left@),
                                        before_out.skip(pc as int),
                                        seq![ArgSlot::FromDefault],
                                    );
                                    assert(out@.skip(pc as int) =~= before_out.skip(pc as int) + seq![ArgSlot::FromDefault]);
                                    assert(out@.subrange(0, pc as int) =~= before_out.subrange(0, pc as int));
                                }
                            } else {
                                proof {
                                    assert(fill_spec(ps@, idx as nat, left@) == Err::<
                                        (Seq<ArgSlot>, Seq<(String, Value)>),
                                        Seq<char>,
                                    >(p.name@));
                                    assert(fill_spec(ps@, pc, named0) == Err::<
                                        (Seq<ArgSlot>, Seq<(String, Value)>),
                                        Seq<char>,
                                    >(p.name@));
                                    assert(first_conflict(named0, ps@, pc) is None);
                                    assert(resolve_spec(positional, named0, Some(ps@)) == Err::<Seq<ArgSlot>, Seq<char>>(
                                        "Missing required argument: "@ + p.name@,
                                    ));
                                }
                                let mut m = owned("Missing required argument: ");
                                append_str(&mut m, p.name.as_str());
                                return Err(InterpreterError::RuntimeError { message: m });
                            }
                        },
                    }
                    idx = idx + 1;
                }
                proof {
                    assert(out@ =~= positional + out@.skip(pc as int));
                    assert(out@.skip(pc as int) + Seq::<ArgSlot>::empty() =~= out@.skip(pc as int));
                }
                if left.len() > 0 {
                    let mut m = owned("Unrecognized named argument(s): ");
                    let joined = join_named(&left);
                    append_str(&mut m, joined.as_str());
                    return Err(InterpreterError::RuntimeError { message: m });
                }
                Ok(out)
            },
        }
    }
}

/// The position of the first named argument called `name`.
fn named_position(named: &Vec<(String, Value)>, name: &str) -> (r: Option<usize>)
    ensures
        match r {
            Some(i) => named_index(named@, name@) == Some(i as int) && i < named@.len(),
            None => named_index(named@, name@) is None,
        },
{
    proof {
        lemma_named_index(named@, name@);
    }
    let mut i: usize = 0;
    while i < named.len()
        invariant
            i <= named@.len(),
            forall|j: int| 0 <= j < i ==> (#[trigger] named@[j]).0@ != name@,
            match named_index(named@, name@) {
                Some(k) => 0 <= k < named@.len() && named@[k].0@ == name@ && forall|j: int|
                    0 <= j < k ==> (#[trigger] named@[j]).0@ != name@,
                None => forall|j: int| 0 <= j < named@.len() ==> (#[trigger] named@[j]).0@ != name@,
            },
        decreases named@.len() - i,
    {
        if str_eq(named[i].0.as_str(), name) {
            return Some(i);
        }
        i = i + 1;
    }
    None
}

/// `named_index` finds the first argument with the name.
proof fn lemma_named_index(named: Seq<(String, Value)>, name: Seq<char>)
    ensures
        match named_index(named, name) {
            Some(k) => 0 <= k < named.len() && named[k].0@ == name && forall|j: int|
                0 <= j < k ==> (#[trigger] named[j]).0@ != name,
            None => forall|j: int| 0 <= j < named.len() ==> (#[trigger] named[j]).0@ != name,
        },
    decreases named.len(),
{
    if named.len() > 0 && named[0].0@ != name {
        lemma_named_index(named.drop_first(), name);
        assert forall|j: int| 1 <= j < named.len() implies named[j] == named.drop_first()[j - 1] by {}
    }
}

/// `param_index` finds the first parameter with the name.
proof fn lemma_param_index(ps: Seq<Parameter>, name: Seq<char>)
    ensures
        match param_index(ps, name) {
            Some(k) => 0 <= k < ps.len() && ps[k].name@ == name && forall|j: int|
                0 <= j < k ==> (#[trigger] ps[j]).name@ != name,
            None => forall|j: int| 0 <= j < ps.len() ==> (#[trigger] ps[j]).name@ != name,
        },
    decreases ps.len(),
{
    if ps.len() > 0 && ps[0].name@ != name {
        lemma_param_index(ps.drop_first(), name);
        assert forall|j: int| 1 <= j < ps.len() implies ps[j] == ps.drop_first()[j - 1] by {}
    }
}

/// The position of the first parameter named `name`.
fn param_position(ps: &Vec<Parameter>, name: &str) -> (r: Option<usize>)
    ensures
        match r {
            Some(i) => param_index(ps@, name@) == Some(i as int),
            None => param_index(ps@, name@) is None,
        },
{
    proof {
        lemma_param_index(ps@, name@);
    }
    let mut i: usize = 0;
    while i < ps.len()
        invariant
            i <= ps@.len(),
            forall|j: int| 0 <= j < i ==> (#[trigger] ps@[j]).name@ != name@,
            match param_index(ps@, name@) {
                Some(k) => 0 <= k < ps@.len() && ps@[k].name@ == name@ && forall|j: int|
                    0 <= j < k ==> (#[trigger] ps@[j]).name@ != name@,
                None => forall|j: int| 0 <= j < ps@.len() ==> (#[trigger] ps@[j]).name@ != name@,
            },
        decreases ps@.len() - i,
    {
        if str_eq(ps[i].name.as_str(), name) {
            return Some(i);
        }
        i = i + 1;
    }
    None
}

/// The first named argument naming a parameter among the first
/// `positional` ones.
fn conflict_name(named: &Vec<(String, Value)>, ps: &Vec<Parameter>, positional: usize) -> (r: Option<String>)
    ensures
        match r {
            Some(n) => first_conflict(named@, ps@, positional as nat) == Some(n@),
            None => first_conflict(named@, ps@, positional as nat) is None,
        },
{
    let mut i: usize = 0;
    proof {
        assert(named@.skip(0) =~= named@);
    }
    while i < named.len()
        invariant
            i <= named@.len(),
            first_conflict(named@, ps@, positional as nat) == first_conflict(named@.skip(i as int), ps@, positional as nat),
        decreases named@.len() - i,
    {
        proof {
            assert(named@.skip(i as int).drop_first() =~= named@.skip(i + 1));
            assert(named@.skip(i as int)[0] == named@[i as int]);
        }
        match param_position(ps, named[i].0.as_str()) {
            Some(pi) => {
                if pi < positional {
                    return Some(owned(named[i].0.as_str()));
                }
            },
            None => {},
        }
        i = i + 1;
    }
    proof {
        assert(named@.skip(i as int).len() == 0);
    }
    None
}

/// The names of named arguments joined with ", ".
fn join_named(named: &Vec<(String, Value)>) -> (s: String)
    ensures
        s@ == join_names(named@),
{
    let mut s = String::new();
    let mut i: usize = 0;
    proof {
        assert(named@.take(0) =~= Seq::<(String, Value)>::empty());
    }
    while i < named.len()
        invariant
            i <= named@.len(),
            s@ == join_names(named@.take(i as int)),
        decreases named@.len() - i,
    {
        if i > 0 {
            append_str(&mut s, ", ");
        }
        append_str(&mut s, named[i].0.as_str());
        proof {
            let t = named@.take(i + 1);
            assert(t.drop_last() =~= named@.take(i as int));
            assert(t.last() == named@[i as int]);
            if i == 0 {
                assert(t.len() == 1);
                assert(s@ =~= t[0].0@);
            }
        }
        i = i + 1;
    }
    proof {
        assert(named@.take(named@.len() as int) =~= named@);
    }
    s
}

/// How many parameters a call must supply: those without a default.
pub open spec fn required_count(ps: Seq<Parameter>) -> nat
    decreases ps.len(),
{
    if ps.len() == 0 {
        0
    } else {
        required_count(ps.drop_last()) + if ps.last().default_value is None {
            1nat
        } else {
            0nat
        }
    }
}

/// The arity check at a call boundary: at least the required parameters,
/// at most all of them.
pub fn check_arity(params: &Vec<Parameter>, given: usize) -> (r: Result<(), InterpreterError>)
    ensures
        match r {
            Ok(()) => required_count(params@) <= given <= params@.len(),
            Err(e) => if given < required_count(params@) {
                e == InterpreterError::ArityMismatch { expected: required_count(params@) as usize, got: given }
            } else {
                given > params@.len() && e == InterpreterError::ArityMismatch {
                    expected: params@.len() as usize,
                    got: given,
                }
            },
        },
{
    let mut required: usize = 0;
    let mut i: usize = 0;
    proof {
        assert(params@.take(0) =~= Seq::<Parameter>::empty());
    }
    while i < params.len()
        invariant
            i <= params@.len(),
            required == required_count(params@.take(i as int)),
            required <= i,
        decreases params@.len() - i,
    {
        proof {
            let t = params@.take(i + 1);
            assert(t.drop_last() =~= params@.take(i as int));
            assert(t.last() == params@[i as int]);
        }
        if params[i].default_value.is_none() {
            required = required + 1;
        }
        i = i + 1;
    }
    proof {
        assert(params@.take(params@.len() as int) =~= params@);
    }
    if given < required {
        return Err(InterpreterError::ArityMismatch { expected: required, got: given });
    }
    if given > params.len() {
        return Err(InterpreterError::ArityMismatch { expected: params.len(), got: given });
    }
    Ok(())
}

/// Whether a slot vector needs defaults filled in: it is shorter than the
/// parameter list or has a hole.
pub fn needs_fill(slots: &Vec<ArgSlot>, param_count: usize) -> (r: bool)
    ensures
        r == (slots@.len() < param_count || exists|i: int| 0 <= i < slots@.len() && (#[trigger] slots@[i]) is FromDefault),
{
    if slots.len() < param_count {
        return true;
    }
    let mut i: usize = 0;
    while i < slots.len()
        invariant
            i <= slots@.len(),
            forall|j: int| 0 <= j < i ==> !(#[trigger] slots@[j] is FromDefault),
        decreases slots@.len() - i,
    {
        match &slots[i] {
            ArgSlot::FromDefault => {
                return true;
            },
            ArgSlot::Given(_) => {},
        }
        i = i + 1;
    }
    false
}

/// The result of one `test "name" { ... }` block: its name, and the
/// failure message when it failed.
pub struct TestOutcome {
    pub name: String,
    pub error: Option<String>,
}

/// What calling a value that is not itself a function comes to: a module
/// that exports `new` is called through that constructor; anything else
/// cannot be called.
pub enum CallTarget {
    /// Call this value instead (a module's `new`).
    Constructor(Value),
}

/// The value a module binds to `name`: its first field of that name.
pub open spec fn field_of(fields: Seq<(String, Value)>, name: Seq<char>) -> Option<Value>
    decreases fields.len(),
{
    if fields.len() == 0 {
        None
    } else if fields[0].0@ == name {
        Some(fields[0].1)
    } else {
        field_of(fields.drop_first(), name)
    }
}

/// The message for a call nested deeper than the limit.
pub open spec fn depth_message(max: usize) -> Seq<char> {
    "Maximum call depth ("@ + crate::text::decimal(max as nat)
        + ") exceeded - possible infinite recursion or very deep call stack"@
}

/// The first step of calling `callee`, for callees held in the library's
/// value model: a call nested `max_call_depth` deep is refused; a module
/// with a `new` field is called through it (a copy of it is returned to
/// call); a module without one, and every other value, is a type error.
pub fn call_function(call_depth: usize, max_call_depth: usize, callee: &Value) -> (r: Result<
    CallTarget,
    InterpreterError,
>)
    ensures
        call_depth >= max_call_depth ==> (r matches Err(InterpreterError::RuntimeError { message }) && message@
            == depth_message(max_call_depth)),
        call_depth < max_call_depth ==> match *callee {
            Value::Struct { struct_name, fields } if struct_name@ == "Module"@ => match field_of(fields@, "new"@) {
                Some(c) => r matches Ok(CallTarget::Constructor(d)) && same_value(c, d),
                None => r matches Err(InterpreterError::TypeError { message }) && message@
                    == "Cannot call a module that has no `new`"@,
            },
            _ => r matches Err(InterpreterError::TypeError { message }) && message@ == "cannot call "@
                + with_article_text(kind_name(*callee)) + ": it is a value, not a function"@,
        },
{
    proof {
        reveal_strlit("Module");
        reveal_strlit("new");
        reveal_strlit("Cannot call a module that has no `new`");
        reveal_strlit("cannot call ");
        reveal_strlit(": it is a value, not a function");
        reveal_strlit("Maximum call depth (");
        reveal_strlit(") exceeded - possible infinite recursion or very deep call stack");
    }
    if call_depth >= max_call_depth {
        let mut m = owned("Maximum call depth (");
        let n = crate::text::usize_to_string(max_call_depth);
        append_str(&mut m, n.as_str());
        append_str(&mut m, ") exceeded - possible infinite recursion or very deep call stack");
        return Err(InterpreterError::RuntimeError { message: m });
    }
    match callee {
        Value::Struct { struct_name, fields } => {
            if str_eq(struct_name.as_str(), "Module") {
                let mut i: usize = 0;
                proof {
                    assert(fields@.skip(0) =~= fields@);
                }
                while i < fields.len()
                    invariant
                        i <= fields@.len(),
                        call_depth < max_call_depth,
                        struct_name@ == "Module"@,
                        *callee == (Value::Struct { struct_name: *struct_name, fields: *fields }),
                        field_of(fields@, "new"@) == field_of(fields@.skip(i as int), "new"@),
                    decreases fields@.len() - i,
                {
                    proof {
                        assert(fields@.skip(i as int)[0] == fields@[i as int]);
                        assert(fields@.skip(i as int).drop_first() =~= fields@.skip(i + 1));
                    }
                    if str_eq(fields[i].0.as_str(), "new") {
                        return Ok(CallTarget::Constructor(copy_value(&fields[i].1)));
                    }
                    i = i + 1;
                }
                proof {
                    assert(fields@.skip(i as int) =~= Seq::<(String, Value)>::empty());
                }
                return Err(InterpreterError::TypeError { message: owned("Cannot call a module that has no `new`") });
            }
        },
        _ => {},
    }
    let kind = value_kind_name(callee);
    let art = with_article(kind.as_str());
    let mut m = owned("cannot call ");
    append_str(&mut m, art.as_str());
    append_str(&mut m, ": it is a value, not a function");
    Err(InterpreterError::TypeError { message: m })
}


/// Removing an argument with another name keeps what `named_index` finds
/// for `name`.
proof fn lemma_named_index_remove(named: Seq<(String, Value)>, p: int, name: Seq<char>)
    requires
        0 <= p < named.len(),
        named[p].0@ != name,
    ensures
        match named_index(named, name) {
            Some(j) => named_index(named.remove(p), name) matches Some(j2) && named.remove(p)[j2] == named[j],
            None => named_index(named.remove(p), name) is None,
        },
{
    let rest = named.remove(p);
    lemma_named_index(named, name);
    lemma_named_index(rest, name);
    assert forall|i: int| 0 <= i < rest.len() implies #[trigger] rest[i] == (if i < p {
        named[i]
    } else {
        named[i + 1]
    }) by {}
    match named_index(named, name) {
        Some(j) => {
            let j1 = if j < p { j } else { j - 1 };
            assert(rest[j1] == named[j]);
            match named_index(rest, name) {
                Some(j2) => {
                    if j2 < j1 {
                        if j2 < p {
                            assert(named[j2] == rest[j2]);
                        } else {
                            assert(named[j2 + 1] == rest[j2]);
                        }
                    }
                    assert(j2 == j1);
                },
                None => {
                    assert(rest[j1].0@ == name);
                },
            }
        },
        None => {
            if let Some(j2) = named_index(rest, name) {
                if j2 < p {
                    assert(named[j2] == rest[j2]);
                } else {
                    assert(named[j2 + 1] == rest[j2]);
                }
            }
        },
    }
}

/// A successful fill has one slot per parameter from `idx` on.
proof fn lemma_fill_len(ps: Seq<Parameter>, idx: nat, named: Seq<(String, Value)>)
    requires
        idx <= ps.len(),
        fill_spec(ps, idx, named) is Ok,
    ensures
        fill_spec(ps, idx, named) matches Ok((slots, _)) && slots.len() == ps.len() - idx,
    decreases ps.len() - idx,
{
    if idx < ps.len() {
        match named_index(named, ps[idx as int].name@) {
            Some(p) => lemma_fill_len(ps, idx + 1, named.remove(p)),
            None => lemma_fill_len(ps, idx + 1, named),
        }
    }
}

/// In a successful fill, the slot of parameter `k` (no earlier parameter
/// from `idx` on having its name) holds the first named argument of its
/// name, or its default when there is none.
proof fn lemma_fill_slot(ps: Seq<Parameter>, idx: nat, named: Seq<(String, Value)>, k: int)
    requires
        idx <= k < ps.len(),
        forall|i: int| idx <= i < k ==> (#[trigger] ps[i]).name@ != ps[k].name@,
        fill_spec(ps, idx, named) is Ok,
    ensures
        fill_spec(ps, idx, named) matches Ok((slots, _)) && slots[k - idx] == match named_index(
            named,
            ps[k].name@,
        ) {
            Some(j) => ArgSlot::Given(named[j].1),
            None => ArgSlot::FromDefault,
        },
        named_index(named, ps[k].name@) is None ==> ps[k].default_value is Some,
    decreases k - idx,
{
    lemma_named_index(named, ps[idx as int].name@);
    match named_index(named, ps[idx as int].name@) {
        Some(p) => {
            let inner = fill_spec(ps, idx + 1, named.remove(p));
            assert(fill_spec(ps, idx, named) == prepend(inner, seq![ArgSlot::Given(named[p].1)]));
            if let Ok((rest, _)) = inner {
                let slots = seq![ArgSlot::Given(named[p].1)] + rest;
                if idx < k {
                    lemma_fill_slot(ps, idx + 1, named.remove(p), k);
                    lemma_fill_len(ps, idx + 1, named.remove(p));
                    lemma_named_index_remove(named, p, ps[k].name@);
                    assert(slots[k - idx] == rest[k - idx - 1]);
                } else {
                    assert(slots[0] == ArgSlot::Given(named[p].1));
                }
            }
        },
        None => {
            let inner = fill_spec(ps, idx + 1, named);
            assert(ps[idx as int].default_value is Some);
            assert(fill_spec(ps, idx, named) == prepend(inner, seq![ArgSlot::FromDefault]));
            if let Ok((rest, _)) = inner {
                let slots = seq![ArgSlot::FromDefault] + rest;
                if idx < k {
                    lemma_fill_slot(ps, idx + 1, named, k);
                    lemma_fill_len(ps, idx + 1, named);
                    assert(slots[k - idx] == rest[k - idx - 1]);
                } else {
                    assert(slots[0] == ArgSlot::FromDefault);
                }
            }
        },
    }
}

/// A named argument binds the parameter of its name: when a call to a
/// function of the program resolves, the positional arguments fill the
/// first slots, and the slot of a later parameter holds the value of the
/// argument that names it, whether or not the parameter has a default;
/// a parameter no argument names takes its default, which it then has.
pub proof fn law_named_argument_binds_its_parameter(
    positional: Seq<ArgSlot>,
    named: Seq<(String, Value)>,
    ps: Seq<Parameter>,
    k: int,
)
    requires
        positional.len() <= k < ps.len(),
        param_index(ps, ps[k].name@) == Some(k),
        resolve_spec(positional, named, Some(ps)) is Ok,
    ensures
        resolve_spec(positional, named, Some(ps)) matches Ok(slots) && {
            &&& slots.len() == ps.len()
            &&& forall|i: int| 0 <= i < positional.len() ==> slots[i] == positional[i]
            &&& slots[k] == match named_index(named, ps[k].name@) {
                Some(j) => ArgSlot::Given(named[j].1),
                None => ArgSlot::FromDefault,
            }
        },
        named_index(named, ps[k].name@) is None ==> ps[k].default_value is Some,
{
    lemma_param_index(ps, ps[k].name@);
    let idx = positional.len();
    lemma_fill_len(ps, idx, named);
    lemma_fill_slot(ps, idx, named, k);
}

} // verus!
