//! Traits at run time: which types implement which traits, the trait
//! bounds on a function's parameters, and method lookup through explicit
//! impls and trait defaults.

use vstd::prelude::*;
use crate::ast::{Parameter, Value};
use crate::errors::InterpreterError;
use crate::module_store::copy_strings;
use crate::string_map::{listed, StringMap};
use crate::text::{append_str, decimal, owned, str_eq, usize_to_string, views};
use crate::value::{kind_name, value_kind_name};

verus! {

/// Whether a type satisfies a trait: through a recorded `impl Trait for
/// Type`, or because the type is the trait's own name (so a bound may
/// name a concrete type too).
pub open spec fn implements(type_traits: StringMap<Vec<String>>, ty: Seq<char>, tr: Seq<char>) -> bool {
    ty == tr || listed(type_traits, ty).contains(tr)
}

/// The first of `traits` that `ty` does not implement.
pub open spec fn first_missing(type_traits: StringMap<Vec<String>>, ty: Seq<char>, traits: Seq<Seq<char>>) -> Option<
    Seq<char>,
>
    decreases traits.len(),
{
    if traits.len() == 0 {
        None
    } else if !implements(type_traits, ty, traits[0]) {
        Some(traits[0])
    } else {
        first_missing(type_traits, ty, traits.drop_first())
    }
}

/// The first unmet bound, in the order the bounds are listed: the
/// argument's position, its type and the trait it lacks. A bound on a
/// position with no argument is not checked.
pub open spec fn first_violation(
    type_traits: StringMap<Vec<String>>,
    bounds: Seq<(usize, Vec<String>)>,
    args: Seq<Value>,
) -> Option<(int, Seq<char>, Seq<char>)>
    decreases bounds.len(),
{
    if bounds.len() == 0 {
        None
    } else {
        let idx = bounds[0].0 as int;
        let here = if idx < args.len() {
            match first_missing(type_traits, kind_name(args[idx]), views(bounds[0].1@)) {
                Some(t) => Some((idx, kind_name(args[idx]), t)),
                None => None,
            }
        } else {
            None
        };
        match here {
            Some(v) => Some(v),
            None => first_violation(type_traits, bounds.drop_first(), args),
        }
    }
}

/// The message for an unmet bound.
pub open spec fn bound_message(fn_name: Seq<char>, idx: int, ty: Seq<char>, tr: Seq<char>) -> Seq<char> {
    fn_name + ": argument "@ + decimal((idx + 1) as nat) + " of type "@ + ty + " does not implement trait "@ + tr
}

/// A function's name as messages show it.
pub open spec fn shown_name(name: Option<Seq<char>>) -> Seq<char> {
    match name {
        Some(n) => n,
        None => "<lambda>"@,
    }
}

/// Whether `ty_name` satisfies `trait_name`.
pub fn type_implements(type_traits: &StringMap<Vec<String>>, ty_name: &str, trait_name: &str) -> (r: bool)
    ensures
        r == implements(*type_traits, ty_name@, trait_name@),
{
    if str_eq(ty_name, trait_name) {
        return true;
    }
    match type_traits.get(ty_name) {
        Some(traits) => {
            let mut i: usize = 0;
            while i < traits.len()
                invariant
                    type_traits.spec_get(ty_name@) == Some(*traits),
                    i <= traits@.len(),
                    ty_name@ != trait_name@,
                    forall|k: int| 0 <= k < i ==> (#[trigger] traits@[k])@ != trait_name@,
                decreases traits@.len() - i,
            {
                if str_eq(traits[i].as_str(), trait_name) {
                    proof {
                        assert(listed(*type_traits, ty_name@)[i as int] == trait_name@);
                    }
                    return true;
                }
                i = i + 1;
            }
            proof {
                if listed(*type_traits, ty_name@).contains(trait_name@) {
                    let k = choose|k: int|
                        0 <= k < listed(*type_traits, ty_name@).len() && listed(*type_traits, ty_name@)[k]
                            == trait_name@;
                    assert(traits@[k]@ == trait_name@);
                }
            }
            false
        },
        None => false,
    }
}

/// Whether a value's run-time type satisfies a trait (what the
/// `implements(value, "Trait")` builtin answers).
pub fn value_implements(type_traits: &StringMap<Vec<String>>, value: &Value, trait_name: &str) -> (r: bool)
    ensures
        r == implements(*type_traits, kind_name(*value), trait_name@),
{
    let ty = value_kind_name(value);
    type_implements(type_traits, ty.as_str(), trait_name)
}

/// Checks every trait bound of a function against the arguments of a
/// call; the first unmet one is a type error naming the function, the
/// argument's position (from one), its type and the trait.
pub fn check_param_bounds(
    type_traits: &StringMap<Vec<String>>,
    fn_name: Option<&str>,
    param_bounds: &Vec<(usize, Vec<String>)>,
    arguments: &Vec<Value>,
) -> (r: Result<(), InterpreterError>)
    ensures
        match first_violation(*type_traits, param_bounds@, arguments@) {
            None => r is Ok,
            Some(v) => r matches Err(InterpreterError::TypeError { message: m }) && m@ == bound_message(
                shown_name(
                    match fn_name {
                        Some(n) => Some(n@),
                        None => None,
                    },
                ),
                v.0,
                v.1,
                v.2,
            ),
        },
{
    let mut i: usize = 0;
    proof {
        assert(param_bounds@.skip(0) =~= param_bounds@);
    }
    while i < param_bounds.len()
        invariant
            i <= param_bounds@.len(),
            first_violation(*type_traits, param_bounds@, arguments@) == first_violation(
                *type_traits,
                param_bounds@.skip(i as int),
                arguments@,
            ),
        decreases param_bounds@.len() - i,
    {
        let index = param_bounds[i].0;
        let traits = &param_bounds[i].1;
        proof {
            assert(param_bounds@.skip(i as int)[0] == param_bounds@[i as int]);
            assert(param_bounds@.skip(i as int).drop_first() =~= param_bounds@.skip(i + 1));
        }
        if index < arguments.len() {
            let arg = &arguments[index];
            let ty = value_kind_name(arg);
            let mut t: usize = 0;
            proof {
                assert(views(traits@).skip(0) =~= views(traits@));
            }
            while t < traits.len()
                invariant
                    0 <= t <= traits@.len(),
                    ty@ == kind_name(*arg),
                    i < param_bounds@.len(),
                    index < arguments@.len(),
                    index < usize::MAX,
                    *arg == arguments@[index as int],
                    param_bounds@[i as int] == (index, *traits),
                    param_bounds@.skip(i as int)[0] == param_bounds@[i as int],
                    first_violation(*type_traits, param_bounds@, arguments@) == first_violation(
                        *type_traits,
                        param_bounds@.skip(i as int),
                        arguments@,
                    ),
                    first_missing(*type_traits, ty@, views(traits@)) == first_missing(
                        *type_traits,
                        ty@,
                        views(traits@).skip(t as int),
                    ),
                decreases traits@.len() - t,
            {
                proof {
                    assert(views(traits@).skip(t as int)[0] == traits@[t as int]@);
                    assert(views(traits@).skip(t as int).drop_first() =~= views(traits@).skip(t + 1));
                }
                if !type_implements(type_traits, ty.as_str(), traits[t].as_str()) {
                    let mut message = match fn_name {
                        Some(n) => owned(n),
                        None => owned("<lambda>"),
                    };
                    append_str(&mut message, ": argument ");
                    let pos = usize_to_string(index + 1);
                    append_str(&mut message, pos.as_str());
                    append_str(&mut message, " of type ");
                    append_str(&mut message, ty.as_str());
                    append_str(&mut message, " does not implement trait ");
                    append_str(&mut message, traits[t].as_str());
                    proof {
                        reveal_strlit("<lambda>");
                        reveal_strlit(": argument ");
                        reveal_strlit(" of type ");
                        reveal_strlit(" does not implement trait ");
                    }
                    return Err(InterpreterError::TypeError { message });
                }
                t = t + 1;
            }
            proof {
                assert(views(traits@).skip(t as int) =~= Seq::<Seq<char>>::empty());
            }
        }
        i = i + 1;
    }
    Ok(())
}

/// The trait lists of the bounds on type variable `var`, in order.
pub open spec fn bounds_on(bounds: Seq<(String, Vec<String>)>, var: Seq<char>) -> Seq<Seq<Seq<char>>>
    decreases bounds.len(),
{
    if bounds.len() == 0 {
        Seq::empty()
    } else {
        let rest = bounds_on(bounds.drop_last(), var);
        if bounds.last().0@ == var {
            rest.push(views(bounds.last().1@))
        } else {
            rest
        }
    }
}

/// For each parameter in order, annotated with a bare type variable, one
/// entry per bound on that variable: the parameter's position and the
/// traits the bound asks for.
pub open spec fn param_bounds_of(bounds: Seq<(String, Vec<String>)>, params: Seq<Parameter>) -> Seq<
    (int, Seq<Seq<char>>),
>
    decreases params.len(),
{
    if params.len() == 0 {
        Seq::empty()
    } else {
        let i = params.len() - 1;
        param_bounds_of(bounds, params.drop_last()) + match params.last().type_annotation {
            Some(a) => bounds_on(bounds, a@).map_values(|t: Seq<Seq<char>>| (i, t)),
            None => Seq::empty(),
        }
    }
}

/// The view of resolved bounds: positions as integers, traits as views.
pub open spec fn bounds_view(v: Seq<(usize, Vec<String>)>) -> Seq<(int, Seq<Seq<char>>)> {
    v.map_values(|e: (usize, Vec<String>)| (e.0 as int, views(e.1@)))
}

/// Maps the trait bounds on type parameters (`<T: Show>`) to the
/// positions of the parameters annotated with those type variables:
/// `<T: Show>(x: T)` gives `[(0, ["Show"])]`.
pub fn resolve_param_bounds(type_param_bounds: &Vec<(String, Vec<String>)>, parameters: &Vec<Parameter>) -> (r: Vec<
    (usize, Vec<String>),
>)
    ensures
        bounds_view(r@) == param_bounds_of(type_param_bounds@, parameters@),
{
    let mut out: Vec<(usize, Vec<String>)> = Vec::new();
    let mut i: usize = 0;
    proof {
        assert(parameters@.take(0) =~= Seq::<Parameter>::empty());
        assert(bounds_view(out@) =~= Seq::<(int, Seq<Seq<char>>)>::empty());
    }
    while i < parameters.len()
        invariant
            i <= parameters@.len(),
            bounds_view(out@) == param_bounds_of(type_param_bounds@, parameters@.take(i as int)),
        decreases parameters@.len() - i,
    {
        let ghost base = bounds_view(out@);
        proof {
            assert(parameters@.take(i + 1).drop_last() =~= parameters@.take(i as int));
            assert(parameters@.take(i + 1).last() == parameters@[i as int]);
        }
        match &parameters[i].type_annotation {
            Some(var) => {
                let mut j: usize = 0;
                proof {
                    assert(type_param_bounds@.take(0) =~= Seq::<(String, Vec<String>)>::empty());
                    assert(bounds_view(out@) =~= base + bounds_on(type_param_bounds@.take(0), var@).map_values(
                        |t: Seq<Seq<char>>| (i as int, t),
                    ));
                }
                while j < type_param_bounds.len()
                    invariant
                        j <= type_param_bounds@.len(),
                        bounds_view(out@) == base + bounds_on(type_param_bounds@.take(j as int), var@).map_values(
                            |t: Seq<Seq<char>>| (i as int, t),
                        ),
                    decreases type_param_bounds@.len() - j,
                {
                    let ghost before = out@;
                    proof {
                        assert(type_param_bounds@.take(j + 1).drop_last() =~= type_param_bounds@.take(j as int));
                        assert(type_param_bounds@.take(j + 1).last() == type_param_bounds@[j as int]);
                    }
                    if str_eq(type_param_bounds[j].0.as_str(), var.as_str()) {
                        let traits = copy_strings(&type_param_bounds[j].1);
                        out.push((i, traits));
                        proof {
                            assert(out@ =~= before.push((i, traits)));
                            assert(bounds_view(out@) =~= bounds_view(before).push(
                                (i as int, views(type_param_bounds@[j as int].1@)),
                            ));
                            assert(bounds_on(type_param_bounds@.take(j + 1), var@) =~= bounds_on(
                                type_param_bounds@.take(j as int),
                                var@,
                            ).push(views(type_param_bounds@[j as int].1@)));
                            assert(bounds_view(out@) =~= base + bounds_on(
                                type_param_bounds@.take(j + 1),
                                var@,
                            ).map_values(|t: Seq<Seq<char>>| (i as int, t)));
                        }
                    } else {
                        proof {
                            assert(bounds_on(type_param_bounds@.take(j + 1), var@) =~= bounds_on(
                                type_param_bounds@.take(j as int),
                                var@,
                            ));
                        }
                    }
                    j = j + 1;
                }
                proof {
                    assert(type_param_bounds@.take(j as int) =~= type_param_bounds@);
                    assert(bounds_view(out@) =~= param_bounds_of(type_param_bounds@, parameters@.take(i + 1)));
                }
            },
            None => {
                proof {
                    assert(bounds_view(out@) =~= param_bounds_of(type_param_bounds@, parameters@.take(i + 1)));
                }
            },
        }
        i = i + 1;
    }
    proof {
        assert(parameters@.take(parameters@.len() as int) =~= parameters@);
    }
    out
}

/// The declared trait relations and methods.
pub struct TraitTables<F> {
    /// type -> the traits it implements, in the order declared
    pub type_traits: StringMap<Vec<String>>,
    /// type -> method -> the method an explicit impl gives
    pub trait_impls: StringMap<StringMap<F>>,
    /// trait -> method -> the default the trait gives
    pub trait_defaults: StringMap<StringMap<F>>,
}

/// The entry under `a` then `b` of a two-level table.
pub open spec fn lookup2<F>(t: StringMap<StringMap<F>>, a: Seq<char>, b: Seq<char>) -> Option<F> {
    match t.spec_get(a) {
        Some(inner) => inner.spec_get(b),
        None => None,
    }
}

/// The default for `method` of the first of `traits` that gives one.
pub open spec fn first_default<F>(defaults: StringMap<StringMap<F>>, traits: Seq<Seq<char>>, method: Seq<char>) -> Option<
    F,
>
    decreases traits.len(),
{
    if traits.len() == 0 {
        None
    } else {
        match lookup2(defaults, traits[0], method) {
            Some(f) => Some(f),
            None => first_default(defaults, traits.drop_first(), method),
        }
    }
}

impl<F> TraitTables<F> {
    /// The method `method` of type `ty`: its explicit impl first, else the
    /// default of the first trait the type implements that has one.
    pub open spec fn method_of(&self, ty: Seq<char>, method: Seq<char>) -> Option<F> {
        match lookup2(self.trait_impls, ty, method) {
            Some(f) => Some(f),
            None => first_default(self.trait_defaults, listed(self.type_traits, ty), method),
        }
    }

    /// Resolves a method for a type: a concrete impl first, then any
    /// default from a trait that type implements.
    pub fn lookup_method(&self, ty_name: &str, method: &str) -> (r: Option<&F>)
        ensures
            match r {
                Some(f) => self.method_of(ty_name@, method@) == Some(*f),
                None => self.method_of(ty_name@, method@) is None,
            },
    {
        match self.trait_impls.get(ty_name) {
            Some(methods) => match methods.get(method) {
                Some(f) => {
                    return Some(f);
                },
                None => {},
            },
            None => {},
        }
        match self.type_traits.get(ty_name) {
            Some(traits) => {
                let mut i: usize = 0;
                proof {
                    assert(views(traits@).skip(0) =~= views(traits@));
                }
                while i < traits.len()
                    invariant
                        self.type_traits.spec_get(ty_name@) == Some(*traits),
                        lookup2(self.trait_impls, ty_name@, method@) is None,
                        i <= traits@.len(),
                        first_default(self.trait_defaults, views(traits@), method@) == first_default(
                            self.trait_defaults,
                            views(traits@).skip(i as int),
                            method@,
                        ),
                    decreases traits@.len() - i,
                {
                    proof {
                        assert(views(traits@).skip(i as int)[0] == traits@[i as int]@);
                        assert(views(traits@).skip(i as int).drop_first() =~= views(traits@).skip(i + 1));
                        assert(listed(self.type_traits, ty_name@) =~= views(traits@));
                    }
                    match self.trait_defaults.get(traits[i].as_str()) {
                        Some(methods) => match methods.get(method) {
                            Some(f) => {
                                return Some(f);
                            },
                            None => {},
                        },
                        None => {},
                    }
                    i = i + 1;
                }
                proof {
                    assert(views(traits@).skip(i as int) =~= Seq::<Seq<char>>::empty());
                    assert(listed(self.type_traits, ty_name@) =~= views(traits@));
                }
                None
            },
            None => None,
        }
    }
}

} // verus!
