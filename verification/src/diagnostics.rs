//! The interpreter's diagnostics: the wording of errors raised while a
//! program runs, the suggestions attached to them, and how errors coming
//! back from the compiled tier are mapped onto the interpreter's own.

use vstd::prelude::*;
use crate::ast::{Statement, Value};
use crate::distance::edit_distance;
use crate::environment::{layer_lookup, opt_same, scope_lookup, Environment};
use crate::errors::{strip_runtime_prefixes, InterpreterError, IntuitiveErrorFormatter};
use crate::ops::{str_lt, string_less};
use crate::string_map::{lemma_spec_keys, StringMap};
use crate::text::{append_str, chars_of, decimal, is_prefix, owned, starts_with, str_eq, string_of, string_of_range, strip_prefix, u128_to_string, views};
use crate::value::{copy_string, same_entries};

verus! {

/// How far (in edits) a suggestion may be from the name it replaces: a
/// third of the name's length, at least one and at most three.
pub open spec fn max_suggestion_distance(name: Seq<char>) -> nat {
    let q = name.len() / 3;
    if q < 1 {
        1
    } else if q > 3 {
        3
    } else {
        q
    }
}

/// Whether `m` may be suggested for `name`: another name, close enough.
pub open spec fn is_candidate(name: Seq<char>, m: Seq<char>) -> bool {
    m != name && edit_distance(name, m) <= max_suggestion_distance(name)
}

/// Whether `a` ranks before `b` as a suggestion for `name`: nearer, or as
/// near and alphabetically first.
pub open spec fn ranks_before(name: Seq<char>, a: Seq<char>, b: Seq<char>) -> bool {
    edit_distance(name, a) < edit_distance(name, b) || (edit_distance(name, a) == edit_distance(name, b)
        && str_lt(a, b))
}

/// The best-ranked candidate for `name` among `ms`, skipping those in
/// `taken`.
pub open spec fn best_candidate(name: Seq<char>, ms: Seq<Seq<char>>, taken: Seq<Seq<char>>) -> Option<Seq<char>>
    decreases ms.len(),
{
    if ms.len() == 0 {
        None
    } else {
        let prev = best_candidate(name, ms.drop_last(), taken);
        let m = ms.last();
        if !is_candidate(name, m) || taken.contains(m) {
            prev
        } else {
            match prev {
                None => Some(m),
                Some(p) => if ranks_before(name, m, p) {
                    Some(m)
                } else {
                    Some(p)
                },
            }
        }
    }
}

/// `str_lt` never holds of a string and itself.
pub proof fn lemma_str_lt_irreflexive(a: Seq<char>)
    ensures
        !str_lt(a, a),
    decreases a.len(),
{
    if a.len() > 0 {
        lemma_str_lt_irreflexive(a.drop_first());
    }
}

/// `str_lt` is transitive.
pub proof fn lemma_str_lt_trans(a: Seq<char>, b: Seq<char>, c: Seq<char>)
    requires
        str_lt(a, b),
        str_lt(b, c),
    ensures
        str_lt(a, c),
    decreases a.len(),
{
    if a.len() > 0 && b.len() > 0 && c.len() > 0 && a[0] == b[0] && b[0] == c[0] {
        lemma_str_lt_trans(a.drop_first(), b.drop_first(), c.drop_first());
    }
}

/// Two different strings are ordered one way or the other.
pub proof fn lemma_str_lt_total(a: Seq<char>, b: Seq<char>)
    requires
        a != b,
    ensures
        str_lt(a, b) || str_lt(b, a),
    decreases a.len(),
{
    if a.len() > 0 && b.len() > 0 && a[0] == b[0] {
        if a.drop_first() == b.drop_first() {
            assert(a =~= seq![a[0]] + a.drop_first());
            assert(b =~= seq![b[0]] + b.drop_first());
        }
        lemma_str_lt_total(a.drop_first(), b.drop_first());
    } else if a.len() == 0 && b.len() == 0 {
        assert(a =~= b);
    } else if a.len() > 0 && b.len() > 0 {
        if (a[0] as u32) == (b[0] as u32) {
            vstd::utf8::char_u32_cast(a[0], a[0] as u32);
            vstd::utf8::char_u32_cast(b[0], b[0] as u32);
        }
    }
}

/// Ranking is transitive.
pub proof fn lemma_ranks_before_trans(name: Seq<char>, a: Seq<char>, b: Seq<char>, c: Seq<char>)
    requires
        ranks_before(name, a, b),
        ranks_before(name, b, c),
    ensures
        ranks_before(name, a, c),
{
    if edit_distance(name, a) == edit_distance(name, b) && edit_distance(name, b) == edit_distance(name, c) {
        lemma_str_lt_trans(a, b, c);
    }
}

/// The suggestion is a candidate from the list, not already taken, and no
/// other such candidate ranks before it; there is none exactly when the
/// list holds no such candidate.
pub proof fn lemma_best_candidate(name: Seq<char>, ms: Seq<Seq<char>>, taken: Seq<Seq<char>>)
    ensures
        match best_candidate(name, ms, taken) {
            Some(b) => ms.contains(b) && is_candidate(name, b) && !taken.contains(b) && forall|c: Seq<char>|
                #![trigger ms.contains(c)]
                ms.contains(c) && is_candidate(name, c) && !taken.contains(c) ==> !ranks_before(name, c, b),
            None => forall|c: Seq<char>| #![trigger ms.contains(c)] ms.contains(c) ==> !is_candidate(name, c) || taken.contains(c),
        },
    decreases ms.len(),
{
    if ms.len() > 0 {
        let init = ms.drop_last();
        let m = ms.last();
        lemma_best_candidate(name, init, taken);
        assert forall|c: Seq<char>| ms.contains(c) implies init.contains(c) || c == m by {
            let i = choose|i: int| 0 <= i < ms.len() && ms[i] == c;
            if i < ms.len() - 1 {
                assert(init[i] == c);
            }
        }
        assert forall|c: Seq<char>| init.contains(c) implies ms.contains(c) by {
            let i = choose|i: int| 0 <= i < init.len() && init[i] == c;
            assert(ms[i] == c);
        }
        assert(ms.contains(m)) by {
            assert(ms[ms.len() - 1] == m);
        }
        match best_candidate(name, init, taken) {
            Some(p) => {
                if is_candidate(name, m) && !taken.contains(m) && ranks_before(name, m, p) {
                    assert forall|c: Seq<char>|
                        #![trigger ms.contains(c)]
                        ms.contains(c) && is_candidate(name, c) && !taken.contains(c) implies !ranks_before(name, c, m) by {
                        if c == m {
                            lemma_str_lt_irreflexive(m);
                        } else if ranks_before(name, c, m) {
                            lemma_ranks_before_trans(name, c, m, p);
                        }
                    }
                }
            },
            None => {
                if is_candidate(name, m) && !taken.contains(m) {
                    assert forall|c: Seq<char>|
                        #![trigger ms.contains(c)]
                        ms.contains(c) && is_candidate(name, c) && !taken.contains(c) implies !ranks_before(name, c, m) by {
                        lemma_str_lt_irreflexive(m);
                    }
                }
            },
        }
    }
}

/// The message for a missing module member: the nearest real member is
/// suggested when one is close enough.
pub open spec fn member_miss_text(field: Seq<char>, members: Seq<Seq<char>>) -> Seq<char> {
    match best_candidate(field, members, Seq::empty()) {
        Some(m) => "Function '"@ + field + "' not found in module — did you mean '"@ + m + "'?"@,
        None => "Function '"@ + field + "' not found in module"@,
    }
}

/// The best-ranked candidate for `name` among `ms`, skipping `taken`.
fn best_candidate_of(name: &str, ms: &Vec<String>, taken: &Vec<String>) -> (r: Option<String>)
    ensures
        match r {
            Some(s) => best_candidate(name@, views(ms@), views(taken@)) == Some(s@),
            None => best_candidate(name@, views(ms@), views(taken@)) is None,
        },
{
    let limit_q = name.unicode_len() / 3;
    let limit: usize = if limit_q < 1 {
        1
    } else if limit_q > 3 {
        3
    } else {
        limit_q
    };
    let mut best: Option<(usize, String)> = None;
    let mut i: usize = 0;
    proof {
        assert(views(ms@).take(0) =~= Seq::<Seq<char>>::empty());
    }
    while i < ms.len()
        invariant
            i <= ms@.len(),
            limit == max_suggestion_distance(name@),
            match best {
                Some((d, s)) => best_candidate(name@, views(ms@).take(i as int), views(taken@)) == Some(s@) && d
                    == edit_distance(name@, s@),
                None => best_candidate(name@, views(ms@).take(i as int), views(taken@)) is None,
            },
        decreases ms@.len() - i,
    {
        let ghost prefix = views(ms@).take(i + 1);
        proof {
            assert(prefix.drop_last() =~= views(ms@).take(i as int));
            assert(prefix.last() == ms@[i as int]@);
        }
        let m = &ms[i];
        if !str_eq(m.as_str(), name) && !crate::text::contains_string(taken, m) {
            let d = IntuitiveErrorFormatter::levenshtein_distance(name, m.as_str());
            if d <= limit {
                let better = match &best {
                    None => true,
                    Some((bd, bs)) => d < *bd || (d == *bd && string_less(m, bs)),
                };
                if better {
                    best = Some((d, m.clone()));
                }
            }
        }
        i = i + 1;
    }
    proof {
        assert(views(ms@).take(ms@.len() as int) =~= views(ms@));
    }
    match best {
        Some((_, s)) => Some(s),
        None => None,
    }
}

/// The message for a missing module member: the nearest real member is
/// suggested when one is close enough.
pub fn module_member_miss(field: &str, members: &Vec<String>) -> (s: String)
    ensures
        s@ == member_miss_text(field@, views(members@)),
{
    let none: Vec<String> = Vec::new();
    proof {
        assert(views(none@) =~= Seq::<Seq<char>>::empty());
    }
    let mut s = owned("Function '");
    append_str(&mut s, field);
    match best_candidate_of(field, members, &none) {
        Some(m) => {
            append_str(&mut s, "' not found in module — did you mean '");
            append_str(&mut s, m.as_str());
            append_str(&mut s, "'?");
        },
        None => {
            append_str(&mut s, "' not found in module");
        },
    }
    s
}

/// Up to three suggestions for `name` among `names`, best first: each the
/// best-ranked candidate not already suggested.
pub open spec fn suggestion_list(name: Seq<char>, names: Seq<Seq<char>>) -> Seq<Seq<char>> {
    match best_candidate(name, names, Seq::empty()) {
        None => Seq::empty(),
        Some(a) => match best_candidate(name, names, seq![a]) {
            None => seq![a],
            Some(b) => match best_candidate(name, names, seq![a, b]) {
                None => seq![a, b],
                Some(c) => seq![a, b, c],
            },
        },
    }
}

/// The best candidate depends only on which names are offered, not on
/// their order or repetition.
pub proof fn lemma_best_candidate_same_names(
    name: Seq<char>,
    ms1: Seq<Seq<char>>,
    ms2: Seq<Seq<char>>,
    taken: Seq<Seq<char>>,
)
    requires
        forall|c: Seq<char>| ms1.contains(c) <==> ms2.contains(c),
    ensures
        best_candidate(name, ms1, taken) == best_candidate(name, ms2, taken),
{
    lemma_best_candidate(name, ms1, taken);
    lemma_best_candidate(name, ms2, taken);
    match (best_candidate(name, ms1, taken), best_candidate(name, ms2, taken)) {
        (Some(b1), Some(b2)) => {
            assert(ms2.contains(b1) && ms1.contains(b2));
            if b1 != b2 {
                lemma_str_lt_total(b1, b2);
            }
        },
        (Some(b1), None) => {
            assert(ms2.contains(b1));
        },
        (None, Some(b2)) => {
            assert(ms1.contains(b2));
        },
        (None, None) => {},
    }
}

/// The suggestions depend only on which names are offered.
pub proof fn lemma_suggestions_same_names(name: Seq<char>, ns1: Seq<Seq<char>>, ns2: Seq<Seq<char>>)
    requires
        forall|c: Seq<char>| ns1.contains(c) <==> ns2.contains(c),
    ensures
        suggestion_list(name, ns1) == suggestion_list(name, ns2),
        did_you_mean_text(name, ns1) == did_you_mean_text(name, ns2),
{
    lemma_best_candidate_same_names(name, ns1, ns2, Seq::empty());
    if let Some(a) = best_candidate(name, ns1, Seq::empty()) {
        lemma_best_candidate_same_names(name, ns1, ns2, seq![a]);
        if let Some(b) = best_candidate(name, ns1, seq![a]) {
            lemma_best_candidate_same_names(name, ns1, ns2, seq![a, b]);
        }
    }
}

/// Items joined with ", ".
pub open spec fn comma_join(items: Seq<Seq<char>>) -> Seq<char>
    decreases items.len(),
{
    if items.len() == 0 {
        Seq::empty()
    } else if items.len() == 1 {
        items[0]
    } else {
        comma_join(items.drop_last()) + ", "@ + items.last()
    }
}

/// The hint for an undefined name: the nearest visible names.
pub open spec fn did_you_mean_text(name: Seq<char>, names: Seq<Seq<char>>) -> Option<Seq<char>> {
    let s = suggestion_list(name, names);
    if s.len() == 0 {
        None
    } else {
        Some("did you mean: "@ + comma_join(s) + "?"@)
    }
}

/// The names a scope binds itself (not its ancestors'), for suggestions.
fn visible_names(env: &Environment) -> (r: Vec<String>)
    ensures
        forall|k: Seq<char>| #[trigger] views(r@).contains(k) <==> layer_lookup(env.layers()[0], k) is Some,
{
    proof {
        env.lemma_layers_nonempty();
    }
    let all = env.get_all_variables();
    let mut r: Vec<String> = Vec::new();
    let mut i: usize = 0;
    while i < all.len()
        invariant
            i <= all.spec_keys().len(),
            r@.len() == i,
            forall|j: int| 0 <= j < i ==> (#[trigger] r@[j])@ == all.spec_keys()[j],
        decreases all.spec_keys().len() - i,
    {
        let k = copy_string(all.key_at(i));
        r.push(k);
        proof {
            assert(all.spec_keys()[i as int] == all.entries()[i as int].0@);
        }
        i = i + 1;
    }
    proof {
        assert(views(r@) =~= all.spec_keys());
        assert forall|k: Seq<char>| #[trigger] views(r@).contains(k) <==> layer_lookup(env.layers()[0], k) is Some by {
            lemma_spec_keys(all, k);
            assert(opt_same(layer_lookup(env.layers()[0], k), all.spec_get(k)));
        }
    }
    r
}

/// Up to three names close to an undefined `name`, among those the scope
/// binds itself, as a hint: "did you mean: a, b, c?". `None` when no name
/// is close enough.
pub fn did_you_mean(env: &Environment, name: &str) -> (r: Option<String>)
    ensures
        forall|names: Seq<Seq<char>>|
            (forall|k: Seq<char>| #[trigger] names.contains(k) <==> layer_lookup(env.layers()[0], k) is Some) ==> match r {
                Some(s) => did_you_mean_text(name@, names) == Some(s@),
                None => did_you_mean_text(name@, names) is None,
            },
{
    let names = visible_names(env);
    let mut taken: Vec<String> = Vec::new();
    proof {
        assert(views(taken@) =~= Seq::<Seq<char>>::empty());
    }
    let r = match best_candidate_of(name, &names, &taken) {
        None => None,
        Some(a) => {
            let mut s = owned("did you mean: ");
            append_str(&mut s, a.as_str());
            taken.push(a);
            proof {
                assert(views(taken@) =~= seq![views(taken@)[0]]);
            }
            match best_candidate_of(name, &names, &taken) {
                None => {},
                Some(b) => {
                    append_str(&mut s, ", ");
                    append_str(&mut s, b.as_str());
                    let ghost a_view = views(taken@)[0];
                    taken.push(b);
                    proof {
                        assert(views(taken@) =~= seq![a_view, views(taken@)[1]]);
                    }
                    match best_candidate_of(name, &names, &taken) {
                        None => {},
                        Some(c) => {
                            append_str(&mut s, ", ");
                            append_str(&mut s, c.as_str());
                        },
                    }
                },
            }
            append_str(&mut s, "?");
            Some(s)
        },
    };
    proof {
        let ns = views(names@);
        let sl = suggestion_list(name@, ns);
        if sl.len() == 2 {
            assert(sl.drop_last() =~= seq![sl[0]]);
            assert(comma_join(sl.drop_last()) == sl[0]);
        } else if sl.len() == 3 {
            assert(sl.drop_last().drop_last() =~= seq![sl[0]]);
            assert(comma_join(sl.drop_last().drop_last()) == sl[0]);
            assert(comma_join(sl.drop_last()) == sl[0] + ", "@ + sl[1]);
        }
        assert(match r {
            Some(s) => did_you_mean_text(name@, ns) == Some(s@),
            None => did_you_mean_text(name@, ns) is None,
        });
        assert forall|names: Seq<Seq<char>>|
            (forall|k: Seq<char>| #[trigger] names.contains(k) <==> layer_lookup(env.layers()[0], k) is Some) implies match r {
                Some(s) => did_you_mean_text(name@, names) == Some(s@),
                None => did_you_mean_text(name@, names) is None,
            } by {
            assert forall|c: Seq<char>| ns.contains(c) <==> names.contains(c) by {
                assert(ns.contains(c) <==> layer_lookup(env.layers()[0], c) is Some);
                assert(names.contains(c) <==> layer_lookup(env.layers()[0], c) is Some);
            }
            lemma_suggestions_same_names(name@, ns, names);
        }
    }
    r
}


/// Whether names are in ascending order.
pub open spec fn ascending(s: Seq<Seq<char>>) -> bool {
    forall|i: int, j: int| 0 <= i < j < s.len() ==> !str_lt(#[trigger] s[j], #[trigger] s[i])
}

/// The names of a struct's fields, in order.
pub open spec fn field_names(fields: Seq<(String, Value)>) -> Seq<Seq<char>> {
    fields.map_values(|e: (String, Value)| e.0@)
}

/// The names in ascending order (equal names kept, in their order).
pub fn sort_names(names: Vec<String>) -> (r: Vec<String>)
    ensures
        ascending(views(r@)),
        views(r@).to_multiset() == views(names@).to_multiset(),
{
    let mut out: Vec<String> = Vec::new();
    let mut i: usize = 0;
    proof {
        assert(views(names@).take(0) =~= Seq::<Seq<char>>::empty());
        assert(views(out@) =~= Seq::<Seq<char>>::empty());
    }
    while i < names.len()
        invariant
            i <= names@.len(),
            ascending(views(out@)),
            views(out@).to_multiset() == views(names@).take(i as int).to_multiset(),
        decreases names@.len() - i,
    {
        let x = &names[i];
        let mut p: usize = 0;
        while p < out.len() && !string_less(x, &out[p])
            invariant
                p <= out@.len(),
                forall|k: int| 0 <= k < p ==> !str_lt(x@, #[trigger] views(out@)[k]),
            decreases out@.len() - p,
        {
            p = p + 1;
        }
        let ghost o = views(out@);
        proof {
            assert forall|a: int, b: int| 0 <= a < b < o.insert(p as int, x@).len() implies !str_lt(
                #[trigger] o.insert(p as int, x@)[b],
                #[trigger] o.insert(p as int, x@)[a],
            ) by {
                let t = o.insert(p as int, x@);
                if b == p {
                    assert(t[a] == o[a]);
                } else if a == p {
                    assert(t[b] == o[b - 1]);
                    assert(str_lt(x@, o[p as int]));
                    if b - 1 > p {
                        assert(!str_lt(o[b - 1], o[p as int]));
                        if o[b - 1] != o[p as int] {
                            lemma_str_lt_total(o[b - 1], o[p as int]);
                            lemma_str_lt_trans(x@, o[p as int], o[b - 1]);
                        }
                    }
                    if str_lt(o[b - 1], x@) {
                        lemma_str_lt_trans(x@, o[b - 1], x@);
                        lemma_str_lt_irreflexive(x@);
                    }
                } else {
                    let a0 = if a < p { a } else { a - 1 };
                    let b0 = if b < p { b } else { b - 1 };
                    assert(t[a] == o[a0] && t[b] == o[b0]);
                }
            }
        }
        out.insert(p, owned(x.as_str()));
        proof {
            assert(views(out@) =~= o.insert(p as int, x@));
            vstd::seq_lib::to_multiset_insert(o, p as int, x@);
            assert(views(names@).take(i + 1) =~= views(names@).take(i as int).push(x@));
            vstd::seq_lib::to_multiset_build(views(names@).take(i as int), x@);
        }
        i = i + 1;
    }
    proof {
        assert(views(names@).take(names@.len() as int) =~= views(names@));
    }
    out
}

/// The members of the module bound to `name`, in ascending order; `None`
/// when `name` is not bound to a module.
pub fn module_members(env: &Environment, name: &str) -> (r: Option<Vec<String>>)
    ensures
        match scope_lookup(env.layers(), name@) {
            Some(Value::Struct { struct_name, fields }) if struct_name@ == "Module"@ => r matches Some(ms) && ascending(
                views(ms@),
            ) && views(ms@).to_multiset() == field_names(fields@).to_multiset(),
            _ => r is None,
        },
{
    match env.get(name) {
        Some(Value::Struct { struct_name, fields }) => {
            proof {
                reveal_strlit("Module");
            }
            if str_eq(struct_name.as_str(), "Module") {
                let mut names: Vec<String> = Vec::new();
                let mut i: usize = 0;
                while i < fields.len()
                    invariant
                        i <= fields@.len(),
                        views(names@) == field_names(fields@).take(i as int),
                    decreases fields@.len() - i,
                {
                    let ghost n0 = names@;
                    names.push(owned(fields[i].0.as_str()));
                    proof {
                        assert(views(names@) =~= views(n0).push(fields@[i as int].0@));
                        assert(field_names(fields@).take(i + 1) =~= field_names(fields@).take(i as int).push(
                            fields@[i as int].0@,
                        ));
                    }
                    i = i + 1;
                }
                proof {
                    assert(field_names(fields@).take(fields@.len() as int) =~= field_names(fields@));
                }
                let sorted = sort_names(names);
                proof {
                    let found = scope_lookup(env.layers(), name@).unwrap();
                    assert(found matches Value::Struct { .. });
                    if let Value::Struct { struct_name: n2, fields: f2 } = found {
                        assert(same_entries(f2@, fields@));
                        assert(field_names(f2@) =~= field_names(fields@));
                    }
                }
                Some(sorted)
            } else {
                None
            }
        },
        _ => None,
    }
}

/// "an Int", "a String": the article English wants before a type name (a
/// name starting with a capital vowel takes "an").
pub open spec fn with_article_text(ty: Seq<char>) -> Seq<char> {
    if ty.len() > 0 && (ty[0] == 'A' || ty[0] == 'E' || ty[0] == 'I' || ty[0] == 'O' || ty[0] == 'U') {
        "an "@ + ty
    } else {
        "a "@ + ty
    }
}

/// A type name with its article.
pub fn with_article(ty: &str) -> (s: String)
    ensures
        s@ == with_article_text(ty@),
{
    let cs = chars_of(ty);
    let vowel = cs.len() > 0 && (cs[0] == 'A' || cs[0] == 'E' || cs[0] == 'I' || cs[0] == 'O' || cs[0] == 'U');
    let mut s = if vowel {
        owned("an ")
    } else {
        owned("a ")
    };
    append_str(&mut s, ty);
    s
}

/// The index of the last `c` in `s`.
pub open spec fn last_char_index(s: Seq<char>, c: char) -> Option<int>
    decreases s.len(),
{
    if s.len() == 0 {
        None
    } else if s.last() == c {
        Some(s.len() - 1)
    } else {
        last_char_index(s.drop_last(), c)
    }
}

/// The index of the first `c` in `s`.
pub open spec fn first_char_index(s: Seq<char>, c: char) -> Option<int>
    decreases s.len(),
{
    if s.len() == 0 {
        None
    } else if s[0] == c {
        Some(0)
    } else {
        match first_char_index(s.drop_first(), c) {
            Some(i) => Some(i + 1),
            None => None,
        }
    }
}

/// `last_char_index` finds the last occurrence.
proof fn lemma_last_char_index(s: Seq<char>, c: char)
    ensures
        match last_char_index(s, c) {
            Some(i) => 0 <= i < s.len() && s[i] == c && forall|j: int| i < j < s.len() ==> s[j] != c,
            None => forall|j: int| 0 <= j < s.len() ==> s[j] != c,
        },
    decreases s.len(),
{
    if s.len() > 0 && s.last() != c {
        lemma_last_char_index(s.drop_last(), c);
        assert forall|j: int| 0 <= j < s.len() - 1 implies s[j] == s.drop_last()[j] by {}
    }
}

/// `first_char_index` finds the first occurrence.
proof fn lemma_first_char_index(s: Seq<char>, c: char)
    ensures
        match first_char_index(s, c) {
            Some(i) => 0 <= i < s.len() && s[i] == c && forall|j: int| 0 <= j < i ==> s[j] != c,
            None => forall|j: int| 0 <= j < s.len() ==> s[j] != c,
        },
    decreases s.len(),
{
    if s.len() > 0 && s[0] != c {
        lemma_first_char_index(s.drop_first(), c);
        assert forall|j: int| 1 <= j < s.len() implies s[j] == s.drop_first()[j - 1] by {}
    }
}

/// The position of the last `c` in `cs`.
fn last_char_position(cs: &Vec<char>, c: char) -> (r: Option<usize>)
    ensures
        match r {
            Some(i) => last_char_index(cs@, c) == Some(i as int),
            None => last_char_index(cs@, c) is None,
        },
{
    proof {
        lemma_last_char_index(cs@, c);
    }
    let mut i: usize = cs.len();
    while i > 0
        invariant
            i <= cs@.len(),
            forall|j: int| i <= j < cs@.len() ==> cs@[j] != c,
            match last_char_index(cs@, c) {
                Some(k) => 0 <= k < cs@.len() && cs@[k] == c && forall|j: int| k < j < cs@.len() ==> cs@[j] != c,
                None => forall|j: int| 0 <= j < cs@.len() ==> cs@[j] != c,
            },
        decreases i,
    {
        if cs[i - 1] == c {
            return Some(i - 1);
        }
        i = i - 1;
    }
    None
}

/// The position of the first `c` in `cs`.
fn first_char_position(cs: &Vec<char>, c: char) -> (r: Option<usize>)
    ensures
        match r {
            Some(i) => first_char_index(cs@, c) == Some(i as int),
            None => first_char_index(cs@, c) is None,
        },
{
    proof {
        lemma_first_char_index(cs@, c);
    }
    let mut i: usize = 0;
    while i < cs.len()
        invariant
            i <= cs@.len(),
            forall|j: int| 0 <= j < i ==> cs@[j] != c,
            match first_char_index(cs@, c) {
                Some(k) => 0 <= k < cs@.len() && cs@[k] == c && forall|j: int| 0 <= j < k ==> cs@[j] != c,
                None => forall|j: int| 0 <= j < cs@.len() ==> cs@[j] != c,
            },
        decreases cs@.len() - i,
    {
        if cs[i] == c {
            return Some(i);
        }
        i = i + 1;
    }
    None
}

/// A module path for display: relative to the entry file's directory when
/// it lies under it, as stored otherwise.
pub open spec fn short_file_text(entry: Option<Seq<char>>, file: Seq<char>) -> Seq<char> {
    match entry {
        Some(e) => match last_char_index(e, '/') {
            Some(k) => if is_prefix(e.take(k + 1), file) {
                file.skip(k + 1)
            } else {
                file
            },
            None => file,
        },
        None => file,
    }
}

/// A module path for display (see `short_file_text`).
pub fn short_file(entry: Option<&str>, file: &str) -> (s: String)
    ensures
        s@ == short_file_text(
            match entry {
                Some(e) => Some(e@),
                None => None,
            },
            file@,
        ),
{
    if let Some(e) = entry {
        let ecs = chars_of(e);
        proof {
            lemma_last_char_index(e@, '/');
        }
        if let Some(k) = last_char_position(&ecs, '/') {
            let len = ecs.len();
            assert(k < len);
            let dir = string_of_range(ecs.as_slice(), 0, k + 1);
            proof {
                assert(ecs@.subrange(0, k + 1) =~= e@.take(k + 1));
            }
            match strip_prefix(file, dir.as_str()) {
                Some(rest) => {
                    return rest;
                },
                None => {},
            }
        }
    }
    owned(file)
}

/// `s` with every leading copy of `p` removed.
pub open spec fn trim_all(s: Seq<char>, p: Seq<char>) -> Seq<char>
    decreases s.len(),
{
    if p.len() > 0 && is_prefix(p, s) {
        trim_all(s.skip(p.len() as int), p)
    } else {
        s
    }
}

/// `s` with every leading copy of `p` removed.
fn trim_all_exec(s: &str, p: &str) -> (r: String)
    ensures
        r@ == trim_all(s@, p@),
{
    let mut cur = owned(s);
    if p.unicode_len() == 0 {
        return cur;
    }
    while starts_with(cur.as_str(), p)
        invariant
            p@.len() > 0,
            trim_all(cur@, p@) == trim_all(s@, p@),
        decreases cur@.len(),
    {
        let stripped = strip_prefix(cur.as_str(), p);
        match stripped {
            Some(rest) => {
                cur = rest;
            },
            None => {
                proof {
                    assert(false);
                }
            },
        }
    }
    cur
}

/// `s` up to its first `c` (all of it when there is none).
pub open spec fn before_char(s: Seq<char>, c: char) -> Seq<char> {
    match first_char_index(s, c) {
        Some(i) => s.take(i),
        None => s,
    }
}

/// The type named by a "cannot call a ..." message.
pub open spec fn uncallable_type(message: Seq<char>) -> Seq<char> {
    before_char(trim_all(trim_all(message, "cannot call an "@), "cannot call a "@), ':')
}

/// The message for calling a non-function bound to `n` of type `ty`.
pub open spec fn uncallable_text(n: Seq<char>, ty: Seq<char>) -> Seq<char> {
    "'"@ + n + "' is "@ + with_article_text(ty) + ", not a function — it cannot be called."@ + if ty == "Map"@
        || ty == "List"@ {
        " To index it, write "@ + n + "[...] instead"@
    } else {
        " If a function named '"@ + n + "' exists elsewhere, this local binding shadows it"@
    }
}

/// When a call failed because the callee is not a function, names the
/// caller's binding in the message; any other error is returned as it is.
pub fn name_uncallable(e: InterpreterError, name: Option<&str>) -> (r: InterpreterError)
    ensures
        match (e, name) {
            (InterpreterError::TypeError { message }, Some(n)) => if is_prefix("cannot call a"@, message@) {
                r matches InterpreterError::TypeError { message: m } && m@ == uncallable_text(
                    n@,
                    uncallable_type(message@),
                )
            } else {
                r == e
            },
            _ => r == e,
        },
{
    match (&e, name) {
        (InterpreterError::TypeError { message }, Some(n)) => {
            if !starts_with(message.as_str(), "cannot call a") {
                return e;
            }
            let t1 = trim_all_exec(message.as_str(), "cannot call an ");
            let t2 = trim_all_exec(t1.as_str(), "cannot call a ");
            let cs = chars_of(t2.as_str());
            proof {
                lemma_first_char_index(t2@, ':');
            }
            let ty = match first_char_position(&cs, ':') {
                Some(i) => string_of_range(cs.as_slice(), 0, i),
                None => owned(t2.as_str()),
            };
            proof {
                lemma_first_char_index(t2@, ':');
                if let Some(i) = first_char_index(t2@, ':') {
                    assert(cs@.subrange(0, i) =~= t2@.take(i));
                }
            }
            let mut m = owned("'");
            append_str(&mut m, n);
            append_str(&mut m, "' is ");
            let art = with_article(ty.as_str());
            append_str(&mut m, art.as_str());
            append_str(&mut m, ", not a function — it cannot be called.");
            if str_eq(ty.as_str(), "Map") || str_eq(ty.as_str(), "List") {
                append_str(&mut m, " To index it, write ");
                append_str(&mut m, n);
                append_str(&mut m, "[...] instead");
            } else {
                append_str(&mut m, " If a function named '");
                append_str(&mut m, n);
                append_str(&mut m, "' exists elsewhere, this local binding shadows it");
            }
            InterpreterError::TypeError { message: m }
        },
        _ => e,
    }
}

/// Whether an error is really a control signal (a loop exit, a return or
/// a propagated `Err`) travelling as one.
pub open spec fn is_control_signal_spec(e: InterpreterError) -> bool {
    match e {
        InterpreterError::BreakSignal(_) | InterpreterError::ContinueSignal | InterpreterError::ReturnSignal(_)
        | InterpreterError::ErrPropagation(_) => true,
        _ => false,
    }
}

/// Whether an error is really a control signal.
pub fn is_control_signal(e: &InterpreterError) -> (r: bool)
    ensures
        r == is_control_signal_spec(*e),
{
    match e {
        InterpreterError::BreakSignal(_) => true,
        InterpreterError::ContinueSignal => true,
        InterpreterError::ReturnSignal(_) => true,
        InterpreterError::ErrPropagation(_) => true,
        _ => false,
    }
}

/// Whether a statement introduces a name into its scope: a binding, a
/// function, an import or a share (type, trait and impl declarations
/// register globally).
pub open spec fn binds_spec(s: Statement) -> bool
    decreases s,
{
    match s {
        Statement::Located { stmt, .. } => binds_spec(*stmt),
        Statement::LetDecl(_) | Statement::FunctionDecl { .. } | Statement::UseDecl { .. } | Statement::ShareDecl(
            _,
        ) => true,
        _ => false,
    }
}

/// Whether a statement introduces a name into its scope.
pub fn statement_binds(statement: &Statement) -> (r: bool)
    ensures
        r == binds_spec(*statement),
    decreases statement,
{
    match statement {
        Statement::Located { stmt, .. } => statement_binds(stmt),
        Statement::LetDecl(_) => true,
        Statement::FunctionDecl { .. } => true,
        Statement::UseDecl { .. } => true,
        Statement::ShareDecl(_) => true,
        _ => false,
    }
}

/// The interpreter's stack (outermost first) followed by a compiled
/// trace's frames (given innermost first), the frame where they meet
/// listed once.
pub open spec fn spliced_stack(stack: Seq<Seq<char>>, frames: Seq<Seq<char>>) -> Seq<Seq<char>> {
    let outer_first = frames.reverse();
    if stack.len() > 0 && outer_first.len() > 0 && stack.last() == outer_first[0] {
        stack + outer_first.drop_first()
    } else {
        stack + outer_first
    }
}

/// Joins the interpreter's stack with a compiled trace's frames.
pub fn splice_tier_stack(call_stack: &Vec<String>, frames: Vec<String>) -> (r: Vec<String>)
    ensures
        views(r@) == spliced_stack(views(call_stack@), views(frames@)),
{
    let mut out: Vec<String> = Vec::new();
    let mut i: usize = 0;
    while i < call_stack.len()
        invariant
            i <= call_stack@.len(),
            out@.len() == i,
            forall|k: int| 0 <= k < i ==> (#[trigger] out@[k])@ == call_stack@[k]@,
        decreases call_stack@.len() - i,
    {
        out.push(copy_string(&call_stack[i]));
        i = i + 1;
    }
    proof {
        assert(views(out@) =~= views(call_stack@));
    }
    let n = frames.len();
    let skip_first = n > 0 && call_stack.len() > 0 && str_eq(
        call_stack[call_stack.len() - 1].as_str(),
        frames[n - 1].as_str(),
    );
    let ghost rev = views(frames@).reverse();
    let ghost base = views(out@);
    let start: usize = if skip_first {
        1
    } else {
        0
    };
    let mut j: usize = start;
    while j < n
        invariant
            start <= j <= n,
            n == frames@.len(),
            rev == views(frames@).reverse(),
            out@.len() == base.len() + (j - start),
            forall|k: int| 0 <= k < base.len() ==> (#[trigger] out@[k])@ == base[k],
            forall|k: int| base.len() <= k < out@.len() ==> (#[trigger] out@[k])@ == rev[k - base.len() + start],
        decreases n - j,
    {
        out.push(copy_string(&frames[n - 1 - j]));
        proof {
            assert(rev[j as int] == frames@[n - 1 - j]@);
        }
        j = j + 1;
    }
    proof {
        assert(views(out@) =~= base + rev.subrange(start as int, n as int));
    }
    proof {
        if skip_first {
            assert(rev[0] == frames@[n - 1]@);
            assert(rev.subrange(1, n as int) =~= rev.drop_first());
        } else {
            assert(rev.subrange(0, n as int) =~= rev);
        }
    }
    out
}

/// The file a raised error belongs to: the executing module, unless it is
/// a built-in one (its name starts with "__") or the entry program itself
/// (or no entry program is known).
pub open spec fn error_file_spec(current: Option<Seq<char>>, entry: Option<Seq<char>>) -> Option<Seq<char>> {
    match current {
        None => None,
        Some(c) => if is_prefix("__"@, c) {
            None
        } else {
            match entry {
                Some(e) => if e == c {
                    None
                } else {
                    Some(c)
                },
                None => None,
            }
        },
    }
}

/// The file a raised error belongs to (see `error_file_spec`).
pub fn error_file(current: Option<&str>, entry: Option<&str>) -> (r: Option<String>)
    ensures
        match r {
            Some(s) => error_file_spec(
                match current {
                    Some(c) => Some(c@),
                    None => None,
                },
                match entry {
                    Some(e) => Some(e@),
                    None => None,
                },
            ) == Some(s@),
            None => error_file_spec(
                match current {
                    Some(c) => Some(c@),
                    None => None,
                },
                match entry {
                    Some(e) => Some(e@),
                    None => None,
                },
            ) is None,
        },
{
    let c = match current {
        Some(c) => c,
        None => {
            return None;
        },
    };
    if starts_with(c, "__") {
        return None;
    }
    match entry {
        Some(e) => if str_eq(e, c) {
            None
        } else {
            Some(owned(c))
        },
        None => None,
    }
}

/// The trait that the first of `declared` (trait, method) pairs naming
/// `field` belongs to.
pub open spec fn declaring_trait(declared: Seq<(String, String)>, field: Seq<char>) -> Option<Seq<char>>
    decreases declared.len(),
{
    if declared.len() == 0 {
        None
    } else if declared[0].1@ == field {
        Some(declared[0].0@)
    } else {
        declaring_trait(declared.drop_first(), field)
    }
}

/// The message for a missing field: if a trait declares a method of that
/// name the fix is an `impl`, and the message says so.
pub open spec fn no_field_or_method_text(
    declared: Seq<(String, String)>,
    implemented: Seq<(String, String)>,
    ty_name: Seq<char>,
    field: Seq<char>,
) -> Seq<char> {
    match declaring_trait(declared, field) {
        Some(t) => "no method '"@ + field + "' for "@ + ty_name + ": the trait "@ + t
            + " declares it, but there is no `impl "@ + t + " for "@ + ty_name + "`"@,
        None => if exists|i: int| 0 <= i < implemented.len() && (#[trigger] implemented[i]).1@ == field {
            "no method '"@ + field + "' for "@ + ty_name
                + ": it is a trait method implemented for other types but not this one — add an `impl ... for "@
                + ty_name + "`"@
        } else {
            ty_name + " has no field or method '"@ + field + "'"@
        },
    }
}

/// The message for a missing field or method of `ty_name`, given the
/// (trait, method) pairs with default bodies and those implemented for
/// some type, each in the order the caller lists them.
pub fn no_field_or_method(
    trait_defaults: &Vec<(String, String)>,
    trait_impls: &Vec<(String, String)>,
    ty_name: &str,
    field: &str,
) -> (s: String)
    ensures
        s@ == no_field_or_method_text(trait_defaults@, trait_impls@, ty_name@, field@),
{
    let mut declaring: Option<&String> = None;
    let mut i: usize = 0;
    proof {
        assert(trait_defaults@.skip(0) =~= trait_defaults@);
    }
    while i < trait_defaults.len()
        invariant
            i <= trait_defaults@.len(),
            declaring_trait(trait_defaults@, field@) == match declaring {
                Some(t) => Some(t@),
                None => declaring_trait(trait_defaults@.skip(i as int), field@),
            },
        decreases trait_defaults@.len() - i,
    {
        proof {
            assert(trait_defaults@.skip(i as int).drop_first() =~= trait_defaults@.skip(i + 1));
            assert(trait_defaults@.skip(i as int)[0] == trait_defaults@[i as int]);
        }
        if declaring.is_none() && str_eq(trait_defaults[i].1.as_str(), field) {
            declaring = Some(&trait_defaults[i].0);
        }
        i = i + 1;
    }
    proof {
        assert(trait_defaults@.skip(trait_defaults@.len() as int) =~= Seq::<(String, String)>::empty());
    }
    let mut implemented = false;
    let mut j: usize = 0;
    while j < trait_impls.len()
        invariant
            j <= trait_impls@.len(),
            implemented == exists|k: int| 0 <= k < j && (#[trigger] trait_impls@[k]).1@ == field@,
        decreases trait_impls@.len() - j,
    {
        if str_eq(trait_impls[j].1.as_str(), field) {
            implemented = true;
        }
        j = j + 1;
    }
    match declaring {
        Some(t) => {
            let mut s = owned("no method '");
            append_str(&mut s, field);
            append_str(&mut s, "' for ");
            append_str(&mut s, ty_name);
            append_str(&mut s, ": the trait ");
            append_str(&mut s, t.as_str());
            append_str(&mut s, " declares it, but there is no `impl ");
            append_str(&mut s, t.as_str());
            append_str(&mut s, " for ");
            append_str(&mut s, ty_name);
            append_str(&mut s, "`");
            s
        },
        None => if implemented {
            let mut s = owned("no method '");
            append_str(&mut s, field);
            append_str(&mut s, "' for ");
            append_str(&mut s, ty_name);
            append_str(&mut s, ": it is a trait method implemented for other types but not this one — add an `impl ... for ");
            append_str(&mut s, ty_name);
            append_str(&mut s, "`");
            s
        } else {
            let mut s = owned(ty_name);
            append_str(&mut s, " has no field or method '");
            append_str(&mut s, field);
            append_str(&mut s, "'");
            s
        },
    }
}

/// The step budget after one charged step: a spent budget stays spent.
pub open spec fn budget_after_step(b: Option<u64>) -> Option<u64> {
    match b {
        Some(n) => if n == 0 {
            Some(0u64)
        } else {
            Some((n - 1) as u64)
        },
        None => None,
    }
}

/// Whether a step charged against `b` succeeds when no deadline has
/// passed.
pub open spec fn step_allowed(b: Option<u64>) -> bool {
    b != Some(0u64)
}

/// The step budget after `k` charged steps.
pub open spec fn budget_after_steps(b: Option<u64>, k: nat) -> Option<u64>
    decreases k,
{
    if k == 0 {
        b
    } else {
        budget_after_step(budget_after_steps(b, (k - 1) as nat))
    }
}

/// With a budget of `n` steps and no deadline, step `k + 1` succeeds
/// exactly when `k < n`, so every step after the `n`-th fails; without a
/// step budget no step fails.
pub proof fn law_budget_allows_n_steps(n: u64, k: nat)
    ensures
        step_allowed(budget_after_steps(Some(n), k)) <==> k < n,
        budget_after_steps(Some(n), k) == Some((if k < n { n - k } else { 0 }) as u64),
        step_allowed(budget_after_steps(None, k)),
        budget_after_steps(None, k) is None,
    decreases k,
{
    if k > 0 {
        law_budget_allows_n_steps(n, (k - 1) as nat);
    }
}

/// Charges one step against the evaluation budget. A spent step budget
/// fails (leaving it at zero); otherwise one step is taken from it, and
/// then a deadline that has passed (`expired_limit_ms`, the limit in
/// milliseconds, given only when a deadline is set and has run out) fails.
pub fn spend_step(step_budget: &mut Option<u64>, expired_limit_ms: Option<u128>) -> (r: Result<
    (),
    InterpreterError,
>)
    ensures
        *final(step_budget) == budget_after_step(*old(step_budget)),
        expired_limit_ms is None ==> (r is Ok <==> step_allowed(*old(step_budget))),
        match *old(step_budget) {
            Some(0) => *final(step_budget) == Some(0u64) && (r matches Err(InterpreterError::RuntimeError { message: m })
                && m@ == "budget exceeded: the evaluation used up its max_steps"@),
            _ => {
                &&& *final(step_budget) == match *old(step_budget) {
                    Some(n) => Some((n - 1) as u64),
                    None => None,
                }
                &&& match expired_limit_ms {
                    Some(ms) => r matches Err(InterpreterError::RuntimeError { message: m }) && m@
                        == "budget exceeded: the evaluation ran past its timeout_ms ("@ + decimal(ms as nat)
                        + " ms)"@,
                    None => r is Ok,
                }
            },
        },
{
    match step_budget {
        Some(left) => {
            if *left == 0 {
                return Err(InterpreterError::RuntimeError {
                    message: owned("budget exceeded: the evaluation used up its max_steps"),
                });
            }
            *left = *left - 1;
        },
        None => {},
    }
    match expired_limit_ms {
        Some(ms) => {
            let mut m = owned("budget exceeded: the evaluation ran past its timeout_ms (");
            let digits = u128_to_string(ms);
            append_str(&mut m, digits.as_str());
            append_str(&mut m, " ms)");
            Err(InterpreterError::RuntimeError { message: m })
        },
        None => Ok(()),
    }
}


/// Whether every character is a decimal digit.
pub open spec fn all_digits(s: Seq<char>) -> bool {
    forall|i: int| 0 <= i < s.len() ==> '0' <= #[trigger] s[i] <= '9'
}

/// The number a string of decimal digits spells.
pub open spec fn digits_value(s: Seq<char>) -> nat
    decreases s.len(),
{
    if s.len() == 0 {
        0
    } else {
        digits_value(s.drop_last()) * 10 + ((s.last() as int) - ('0' as int)) as nat
    }
}

/// What parsing `s` as a `usize` gives: an optional `+`, then one or more
/// decimal digits, whose value must fit.
pub open spec fn parse_usize_spec(s: Seq<char>) -> Option<nat> {
    let d = if s.len() > 0 && s[0] == '+' {
        s.skip(1)
    } else {
        s
    };
    if d.len() > 0 && all_digits(d) && digits_value(d) <= usize::MAX {
        Some(digits_value(d))
    } else {
        None
    }
}

/// Adding digits never makes the value smaller.
proof fn lemma_digits_value_grows(s: Seq<char>, k: int)
    requires
        0 <= k <= s.len(),
        all_digits(s),
    ensures
        digits_value(s.take(k)) <= digits_value(s),
    decreases s.len() - k,
{
    if k < s.len() {
        let t = s.take(k + 1);
        assert(t.drop_last() =~= s.take(k));
        assert('0' <= t.last() <= '9');
        lemma_digits_value_grows(s, k + 1);
    } else {
        assert(s.take(k) =~= s);
    }
}

/// Parses `s` as a `usize` (see `parse_usize_spec`).
pub fn parse_usize(s: &str) -> (r: Option<usize>)
    ensures
        match r {
            Some(v) => parse_usize_spec(s@) == Some(v as nat),
            None => parse_usize_spec(s@) is None,
        },
{
    let cs = chars_of(s);
    let start: usize = if cs.len() > 0 && cs[0] == '+' {
        1
    } else {
        0
    };
    let ghost d = if s@.len() > 0 && s@[0] == '+' {
        s@.skip(1)
    } else {
        s@
    };
    proof {
        assert(d =~= cs@.skip(start as int));
    }
    if start >= cs.len() {
        proof {
            assert(d.len() == 0);
            assert(parse_usize_spec(s@) is None);
        }
        return None;
    }
    let mut acc: usize = 0;
    let mut i: usize = start;
    proof {
        assert(d.take(0) =~= Seq::<char>::empty());
    }
    while i < cs.len()
        invariant
            start <= i <= cs@.len(),
            cs@ == s@,
            d == if s@.len() > 0 && s@[0] == '+' {
                s@.skip(1)
            } else {
                s@
            },
            d == cs@.skip(start as int),
            acc as nat == digits_value(d.take(i - start)),
            all_digits(d.take(i - start)),
        decreases cs@.len() - i,
    {
        let c = cs[i];
        let ghost t = d.take(i - start + 1);
        proof {
            assert(t.drop_last() =~= d.take(i - start));
            assert(t.last() == c);
        }
        if c < '0' || c > '9' {
            proof {
                assert(d[i - start] == c);
                assert(!all_digits(d));
                assert(parse_usize_spec(s@) is None);
            }
            return None;
        }
        let dv = (c as u32 - '0' as u32) as usize;
        assert(dv == (c as int) - ('0' as int));
        let next = match acc.checked_mul(10) {
            Some(m) => m.checked_add(dv),
            None => None,
        };
        match next {
            Some(v) => {
                acc = v;
            },
            None => {
                proof {
                    assert(all_digits(t));
                    assert(digits_value(t) == acc * 10 + dv);
                    assert(digits_value(t) > usize::MAX);
                    if all_digits(d) {
                        lemma_digits_value_grows(d, i - start + 1);
                    }
                    assert(parse_usize_spec(s@) is None);
                }
                return None;
            },
        }
        i = i + 1;
        proof {
            assert(all_digits(d.take(i - start)));
        }
    }
    proof {
        assert(d.take(cs@.len() - start) =~= d);
    }
    Some(acc)
}

/// The first index from which `p` occurs in `s`.
pub open spec fn first_occurrence(s: Seq<char>, p: Seq<char>) -> Option<int>
    decreases s.len(),
{
    if is_prefix(p, s) {
        Some(0)
    } else if s.len() == 0 {
        None
    } else {
        match first_occurrence(s.drop_first(), p) {
            Some(i) => Some(i + 1),
            None => None,
        }
    }
}

/// `first_occurrence` finds the first place `p` occurs.
proof fn lemma_first_occurrence(s: Seq<char>, p: Seq<char>)
    ensures
        match first_occurrence(s, p) {
            Some(i) => 0 <= i <= s.len() && is_prefix(p, s.skip(i)) && forall|j: int|
                0 <= j < i ==> !is_prefix(p, #[trigger] s.skip(j)),
            None => forall|j: int| 0 <= j <= s.len() ==> !is_prefix(p, #[trigger] s.skip(j)),
        },
    decreases s.len(),
{
    assert(s.skip(0) =~= s);
    if !is_prefix(p, s) && s.len() > 0 {
        lemma_first_occurrence(s.drop_first(), p);
        assert forall|j: int| 1 <= j <= s.len() implies #[trigger] s.skip(j) =~= s.drop_first().skip(j - 1) by {}
    }
}

/// The first index from which `p` occurs in `cs`.
fn find_text(cs: &Vec<char>, p: &str) -> (r: Option<usize>)
    ensures
        match r {
            Some(i) => first_occurrence(cs@, p@) == Some(i as int),
            None => first_occurrence(cs@, p@) is None,
        },
{
    proof {
        lemma_first_occurrence(cs@, p@);
    }
    let pn = p.unicode_len();
    let n = cs.len();
    if pn == 0 {
        proof {
            assert(cs@.take(0) =~= p@);
        }
        return Some(0);
    }
    if pn > n {
        proof {
            assert forall|j: int| 0 <= j <= cs@.len() implies !is_prefix(p@, #[trigger] cs@.skip(j)) by {}
        }
        return None;
    }
    let mut i: usize = 0;
    while i <= n - pn
        invariant
            pn == p@.len(),
            n == cs@.len(),
            1 <= pn <= n,
            i <= n - pn + 1,
            forall|j: int| 0 <= j < i ==> !is_prefix(p@, #[trigger] cs@.skip(j)),
            match first_occurrence(cs@, p@) {
                Some(k) => 0 <= k <= cs@.len() && is_prefix(p@, cs@.skip(k)) && forall|j: int|
                    0 <= j < k ==> !is_prefix(p@, #[trigger] cs@.skip(j)),
                None => forall|j: int| 0 <= j <= cs@.len() ==> !is_prefix(p@, #[trigger] cs@.skip(j)),
            },
        decreases n - pn + 1 - i,
    {
        let rest = string_of_range(cs.as_slice(), i, n);
        proof {
            assert(cs@.subrange(i as int, n as int) =~= cs@.skip(i as int));
        }
        if starts_with(rest.as_str(), p) {
            return Some(i);
        }
        i = i + 1;
    }
    proof {
        assert forall|j: int| i <= j <= cs@.len() implies !is_prefix(p@, #[trigger] cs@.skip(j)) by {}
    }
    None
}

/// How an error message from the compiled tier maps onto the
/// interpreter's own errors.
pub open spec fn tier_error_spec(message: Seq<char>, e: InterpreterError) -> bool {
    if message == "Pattern match failed"@ {
        e is PatternMatchFailed
    } else if is_prefix("Type error: "@, message) {
        let rest = message.skip(12);
        if is_prefix("cannot call a"@, rest) {
            e matches InterpreterError::TypeError { message: m } && m@ == "inside a compiled function, "@ + rest
                + " — a parameter or local named like the function it shadows is the usual cause; `olang check` names the parameter"@
        } else {
            e matches InterpreterError::TypeError { message: m } && m@ == rest
        }
    } else if is_prefix("Undefined variable: "@, message) {
        e matches InterpreterError::UndefinedVariable { name: n } && n@ == message.skip(20)
    } else if is_prefix("Arity mismatch: expected "@, message) {
        let rest = message.skip(25);
        match first_occurrence(rest, ", got "@) {
            Some(k) => match (parse_usize_spec(rest.take(k)), parse_usize_spec(rest.skip(k + 6))) {
                (Some(x), Some(y)) => e == InterpreterError::ArityMismatch { expected: x as usize, got: y as usize },
                _ => e matches InterpreterError::RuntimeError { message: m } && m@ == message,
            },
            None => e matches InterpreterError::RuntimeError { message: m } && m@ == message,
        }
    } else {
        e matches InterpreterError::RuntimeError { message: m } && m@ == strip_runtime_prefixes(message)
    }
}

/// Maps a bare error message from the compiled tier onto the
/// interpreter's own error, so that a user sees the same report whichever
/// tier ran the code.
pub fn map_tier_error_message(message: String) -> (e: InterpreterError)
    ensures
        tier_error_spec(message@, e),
{
    proof {
        reveal_strlit("Type error: ");
        reveal_strlit("Undefined variable: ");
        reveal_strlit("Arity mismatch: expected ");
        reveal_strlit(", got ");
    }
    if str_eq(message.as_str(), "Pattern match failed") {
        return InterpreterError::PatternMatchFailed;
    }
    if let Some(rest) = strip_prefix(message.as_str(), "Type error: ") {
        if starts_with(rest.as_str(), "cannot call a") {
            let mut m = owned("inside a compiled function, ");
            append_str(&mut m, rest.as_str());
            append_str(
                &mut m,
                " — a parameter or local named like the function it shadows is the usual cause; `olang check` names the parameter",
            );
            return InterpreterError::TypeError { message: m };
        }
        return InterpreterError::TypeError { message: rest };
    }
    if let Some(name) = strip_prefix(message.as_str(), "Undefined variable: ") {
        return InterpreterError::UndefinedVariable { name };
    }
    if let Some(rest) = strip_prefix(message.as_str(), "Arity mismatch: expected ") {
        let cs = chars_of(rest.as_str());
        proof {
            lemma_first_occurrence(rest@, ", got "@);
        }
        match find_text(&cs, ", got ") {
            Some(k) => {
                let len = cs.len();
                assert(k + 6 <= len);
                let first = string_of_range(cs.as_slice(), 0, k);
                let second = string_of_range(cs.as_slice(), k + 6, cs.len());
                proof {
                    assert(cs@.subrange(0, k as int) =~= rest@.take(k as int));
                    assert(cs@.subrange(k + 6, cs@.len() as int) =~= rest@.skip(k + 6));
                }
                match (parse_usize(first.as_str()), parse_usize(second.as_str())) {
                    (Some(expected), Some(got)) => {
                        return InterpreterError::ArityMismatch { expected, got };
                    },
                    _ => {
                        return InterpreterError::RuntimeError { message };
                    },
                }
            },
            None => {
                return InterpreterError::RuntimeError { message };
            },
        }
    }
    InterpreterError::runtime(message)
}

} // verus!
