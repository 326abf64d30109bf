//! The interpreter's scope model: a persistent map of bindings with cheap
//! snapshots (the basis of capture-by-value closures), a frame's own
//! bindings probed before it, and a parent scope.

use vstd::prelude::*;
use crate::ast::Value;
use crate::errors::InterpreterError;
use crate::string_map::StringMap;
use crate::text::{owned, str_eq, views};
use crate::value::{copy_string, copy_value, same_value, same_seq, lemma_same_value_refl, lemma_same_value_sym, lemma_same_value_trans};

verus! {

#[verifier::external_type_specification]
#[verifier::external_body]
#[verifier::reject_recursive_types(K)]
#[verifier::reject_recursive_types(V)]
#[verifier::reject_recursive_types(S)]
pub struct ExPersistentMap<K, V, S>(im::HashMap<K, V, S>);

/// The bindings a persistent map holds.
pub uninterp spec fn im_contents(m: im::HashMap<String, Value>) -> Map<Seq<char>, Value>;

/// Whether two optional values are both absent or exact copies.
pub open spec fn opt_same(a: Option<Value>, b: Option<Value>) -> bool {
    match (a, b) {
        (None, None) => true,
        (Some(x), Some(y)) => same_value(x, y),
        _ => false,
    }
}

/// Whether `n` holds the bindings of `o` with `key` bound to `value`:
/// other bindings are kept (as exact copies: the map may copy the nodes
/// it shares with snapshots).
pub open spec fn contents_insert(
    o: Map<Seq<char>, Value>,
    n: Map<Seq<char>, Value>,
    key: Seq<char>,
    value: Value,
) -> bool {
    &&& n.dom() == o.dom().insert(key)
    &&& n[key] == value
    &&& forall|k: Seq<char>| k != key && o.contains_key(k) ==> same_value(#[trigger] o[k], n[k])
}

/// An empty persistent map (`im::HashMap::new`).
#[verifier::external_body]
fn im_new() -> (fresh: im::HashMap<String, Value>)
    ensures
        im_contents(fresh).dom() == Set::<Seq<char>>::empty(),
{
    im::HashMap::new()
}

/// The value bound to `key` (`im::HashMap::get`).
#[verifier::external_body]
fn im_get<'a>(m: &'a im::HashMap<String, Value>, key: &str) -> (r: Option<&'a Value>)
    ensures
        match r {
            Some(v) => im_contents(*m).contains_key(key@) && im_contents(*m)[key@] == *v,
            None => !im_contents(*m).contains_key(key@),
        },
{
    m.get(key)
}

/// Binds `key` to `value`, returning the value it replaces
/// (`im::HashMap::insert`).
#[verifier::external_body]
fn im_insert(m: &mut im::HashMap<String, Value>, key: String, value: Value) -> (r: Option<Value>)
    ensures
        contents_insert(im_contents(*old(m)), im_contents(*final(m)), key@, value),
        match r {
            Some(p) => im_contents(*old(m)).contains_key(key@) && same_value(im_contents(*old(m))[key@], p),
            None => !im_contents(*old(m)).contains_key(key@),
        },
{
    m.insert(key, value)
}

/// Unbinds `key` (`im::HashMap::remove`).
#[verifier::external_body]
fn im_remove(m: &mut im::HashMap<String, Value>, key: &str) -> (r: Option<Value>)
    ensures
        im_contents(*final(m)).dom() == im_contents(*old(m)).dom().remove(key@),
        forall|k: Seq<char>|
            k != key@ && im_contents(*old(m)).contains_key(k) ==> same_value(
                #[trigger] im_contents(*old(m))[k],
                im_contents(*final(m))[k],
            ),
        match r {
            Some(p) => im_contents(*old(m)).contains_key(key@) && same_value(im_contents(*old(m))[key@], p),
            None => !im_contents(*old(m)).contains_key(key@),
        },
{
    m.remove(key)
}

/// Whether `key` is bound (`im::HashMap::contains_key`).
#[verifier::external_body]
fn im_contains_key(m: &im::HashMap<String, Value>, key: &str) -> (r: bool)
    ensures
        r == im_contents(*m).contains_key(key@),
{
    m.contains_key(key)
}

/// A snapshot of the map (`im::HashMap::clone`): the same nodes, so the
/// same bindings.
#[verifier::external_body]
fn im_clone(m: &im::HashMap<String, Value>) -> (r: im::HashMap<String, Value>)
    ensures
        im_contents(r) == im_contents(*m),
{
    m.clone()
}

/// Every binding of the map, each once, in the map's iteration order
/// (`im::HashMap::iter`, each pair copied out).
#[verifier::external_body]
fn im_entries(m: &im::HashMap<String, Value>) -> (r: Vec<(String, Value)>)
    ensures
        forall|i: int, j: int| 0 <= i < j < r@.len() ==> r@[i].0@ != r@[j].0@,
        forall|i: int|
            0 <= i < r@.len() ==> im_contents(*m).contains_key((#[trigger] r@[i]).0@) && same_value(
                im_contents(*m)[r@[i].0@],
                r@[i].1,
            ),
        forall|k: Seq<char>| #[trigger] im_contents(*m).contains_key(k) ==> exists|i: int| 0 <= i < r@.len() && (#[trigger] r@[i]).0@ == k,
{
    m.iter().map(|(k, v)| (k.clone(), v.clone())).collect()
}


/// One level of a scope chain, as the contracts see it: the frame's own
/// bindings in order, the persistent map, and whether the level is a frame.
pub struct Layer {
    pub locals: Seq<(String, Value)>,
    pub bindings: Map<Seq<char>, Value>,
    pub frame: bool,
}

/// The index of the last entry whose key is `key`.
pub open spec fn last_index(entries: Seq<(String, Value)>, key: Seq<char>) -> Option<int>
    decreases entries.len(),
{
    if entries.len() == 0 {
        None
    } else if entries.last().0@ == key {
        Some(entries.len() - 1)
    } else {
        last_index(entries.drop_last(), key)
    }
}

/// What one level binds `key` to: its last frame binding, else its map.
pub open spec fn layer_lookup(l: Layer, key: Seq<char>) -> Option<Value> {
    match last_index(l.locals, key) {
        Some(i) => Some(l.locals[i].1),
        None => if l.bindings.contains_key(key) {
            Some(l.bindings[key])
        } else {
            None
        },
    }
}

/// What a scope chain binds `key` to: the nearest level that binds it.
pub open spec fn scope_lookup(ls: Seq<Layer>, key: Seq<char>) -> Option<Value>
    decreases ls.len(),
{
    if ls.len() == 0 {
        None
    } else {
        match layer_lookup(ls[0], key) {
            Some(v) => Some(v),
            None => scope_lookup(ls.drop_first(), key),
        }
    }
}

/// A level with `key` rebound to `v`: its last frame binding of the key if
/// it has one, else its map.
pub open spec fn layer_assign(l: Layer, key: Seq<char>, v: Value) -> Layer {
    match last_index(l.locals, key) {
        Some(i) => Layer { locals: l.locals.update(i, (l.locals[i].0, v)), bindings: l.bindings, frame: l.frame },
        None => Layer { locals: l.locals, bindings: l.bindings.insert(key, v), frame: l.frame },
    }
}

/// A chain after assigning `v` to `key`: the nearest level that binds the
/// key is rebound; `None` when no level binds it.
pub open spec fn assign_spec(ls: Seq<Layer>, key: Seq<char>, v: Value) -> Option<Seq<Layer>>
    decreases ls.len(),
{
    if ls.len() == 0 {
        None
    } else if layer_lookup(ls[0], key) is Some {
        Some(ls.update(0, layer_assign(ls[0], key, v)))
    } else {
        match assign_spec(ls.drop_first(), key, v) {
            Some(t) => Some(seq![ls[0]] + t),
            None => None,
        }
    }
}

/// A chain after a definition: a frame binding of the name in the
/// innermost level is overwritten; otherwise a frame gains a binding and a
/// non-frame level binds the name in its map.
pub open spec fn define_spec(ls: Seq<Layer>, name: String, v: Value) -> Seq<Layer>
    recommends
        ls.len() > 0,
{
    let l = ls[0];
    match last_index(l.locals, name@) {
        Some(i) => ls.update(0, Layer { locals: l.locals.update(i, (l.locals[i].0, v)), bindings: l.bindings, frame: l.frame }),
        None => if l.frame {
            ls.update(0, Layer { locals: l.locals.push((name, v)), bindings: l.bindings, frame: l.frame })
        } else {
            ls.update(0, Layer { locals: l.locals, bindings: l.bindings.insert(name@, v), frame: l.frame })
        },
    }
}

/// Whether `b` is `a` up to copies of the values in its maps.
pub open spec fn same_layer(a: Layer, b: Layer) -> bool {
    &&& a.locals == b.locals
    &&& a.frame == b.frame
    &&& a.bindings.dom() == b.bindings.dom()
    &&& forall|k: Seq<char>| #[trigger] a.bindings.contains_key(k) ==> same_value(a.bindings[k], b.bindings[k])
}

/// Level-wise `same_layer`.
pub open spec fn same_layers(xs: Seq<Layer>, ys: Seq<Layer>) -> bool {
    xs.len() == ys.len() && forall|i: int| 0 <= i < xs.len() ==> same_layer(#[trigger] xs[i], ys[i])
}

/// An empty level.
pub open spec fn empty_layer(l: Layer, frame: bool) -> bool {
    l.locals.len() == 0 && l.bindings.dom().is_empty() && l.frame == frame
}

/// `last_index` finds the last entry with the key.
pub proof fn lemma_last_index(entries: Seq<(String, Value)>, key: Seq<char>)
    ensures
        match last_index(entries, key) {
            Some(i) => 0 <= i < entries.len() && entries[i].0@ == key && forall|j: int|
                i < j < entries.len() ==> (#[trigger] entries[j]).0@ != key,
            None => forall|j: int| 0 <= j < entries.len() ==> (#[trigger] entries[j]).0@ != key,
        },
    decreases entries.len(),
{
    if entries.len() > 0 && entries.last().0@ != key {
        lemma_last_index(entries.drop_last(), key);
        assert forall|j: int| 0 <= j < entries.len() - 1 implies entries[j] == entries.drop_last()[j] by {}
    }
}

/// `last_index` only depends on the keys.
pub proof fn lemma_last_index_same_keys(a: Seq<(String, Value)>, b: Seq<(String, Value)>, key: Seq<char>)
    requires
        a.len() == b.len(),
        forall|j: int| 0 <= j < a.len() ==> (#[trigger] a[j]).0@ == b[j].0@,
    ensures
        last_index(a, key) == last_index(b, key),
    decreases a.len(),
{
    if a.len() > 0 {
        assert(a.last().0@ == b.last().0@);
        assert forall|j: int| 0 <= j < a.len() - 1 implies (#[trigger] a.drop_last()[j]).0@ == b.drop_last()[j].0@ by {
            assert(a.drop_last()[j] == a[j]);
            assert(b.drop_last()[j] == b[j]);
        }
        lemma_last_index_same_keys(a.drop_last(), b.drop_last(), key);
    }
}

/// Rebinding a level changes what it binds the key to and nothing else.
pub proof fn lemma_layer_assign(l: Layer, key: Seq<char>, v: Value, k: Seq<char>)
    requires
        layer_lookup(l, key) is Some,
    ensures
        layer_lookup(layer_assign(l, key, v), k) == if k == key {
            Some(v)
        } else {
            layer_lookup(l, k)
        },
{
    lemma_last_index(l.locals, key);
    match last_index(l.locals, key) {
        Some(i) => {
            let u = l.locals.update(i, (l.locals[i].0, v));
            lemma_last_index_same_keys(l.locals, u, k);
            lemma_last_index(l.locals, k);
        },
        None => {},
    }
}

/// Assignment succeeds exactly on a bound name; afterwards the name reads
/// back the value and every other name reads what it read before.
pub proof fn lemma_assign_spec(ls: Seq<Layer>, key: Seq<char>, v: Value, k: Seq<char>)
    ensures
        assign_spec(ls, key, v) is Some <==> scope_lookup(ls, key) is Some,
        assign_spec(ls, key, v) is Some ==> {
            let t = assign_spec(ls, key, v)->0;
            &&& t.len() == ls.len()
            &&& scope_lookup(t, k) == if k == key {
                Some(v)
            } else {
                scope_lookup(ls, k)
            }
        },
    decreases ls.len(),
{
    if ls.len() > 0 {
        if layer_lookup(ls[0], key) is Some {
            let t = ls.update(0, layer_assign(ls[0], key, v));
            lemma_layer_assign(ls[0], key, v, k);
            assert(t.drop_first() =~= ls.drop_first());
        } else {
            lemma_assign_spec(ls.drop_first(), key, v, k);
            match assign_spec(ls.drop_first(), key, v) {
                Some(t) => {
                    let u = seq![ls[0]] + t;
                    assert(u[0] == ls[0]);
                    assert(u.drop_first() =~= t);
                    lemma_last_index(ls[0].locals, k);
                },
                None => {},
            }
        }
    }
}

/// A definition binds the name to the value and leaves every other name
/// as it was.
pub proof fn lemma_define_spec(ls: Seq<Layer>, name: String, v: Value, k: Seq<char>)
    requires
        ls.len() > 0,
    ensures
        define_spec(ls, name, v).len() == ls.len(),
        scope_lookup(define_spec(ls, name, v), k) == if k == name@ {
            Some(v)
        } else {
            scope_lookup(ls, k)
        },
{
    let l = ls[0];
    let d = define_spec(ls, name, v);
    assert(d.drop_first() =~= ls.drop_first());
    lemma_last_index(l.locals, name@);
    lemma_last_index(l.locals, k);
    match last_index(l.locals, name@) {
        Some(i) => {
            lemma_last_index_same_keys(l.locals, d[0].locals, k);
        },
        None => {
            if l.frame {
                let p = l.locals.push((name, v));
                assert(p.drop_last() =~= l.locals);
                assert(p.last() == (name, v));
            }
        },
    }
}

/// Chains that agree up to copies read every name the same, up to copies.
pub proof fn lemma_same_layers_lookup(xs: Seq<Layer>, ys: Seq<Layer>, k: Seq<char>)
    requires
        same_layers(xs, ys),
    ensures
        opt_same(scope_lookup(xs, k), scope_lookup(ys, k)),
    decreases xs.len(),
{
    if xs.len() > 0 {
        assert(same_layer(xs[0], ys[0]));
        match layer_lookup(xs[0], k) {
            Some(x) => {
                match last_index(xs[0].locals, k) {
                    Some(i) => lemma_same_value_refl(x),
                    None => {
                        assert(xs[0].bindings.contains_key(k));
                    },
                }
            },
            None => {
                assert(same_layers(xs.drop_first(), ys.drop_first())) by {
                    assert forall|i: int| 0 <= i < xs.drop_first().len() implies same_layer(
                        #[trigger] xs.drop_first()[i],
                        ys.drop_first()[i],
                    ) by {
                        assert(same_layer(xs[i + 1], ys[i + 1]));
                    }
                }
                lemma_same_layers_lookup(xs.drop_first(), ys.drop_first(), k);
            },
        }
    }
}

/// Every level agrees with itself.
pub proof fn lemma_same_layer_refl(l: Layer)
    ensures
        same_layer(l, l),
{
    assert forall|k: Seq<char>| #[trigger] l.bindings.contains_key(k) implies same_value(l.bindings[k], l.bindings[k]) by {
        lemma_same_value_refl(l.bindings[k]);
    }
}

/// Putting a level in front of two agreeing chains keeps them agreeing.
pub proof fn lemma_same_layers_cons(l: Layer, m: Layer, xs: Seq<Layer>, ys: Seq<Layer>)
    requires
        same_layer(l, m),
        same_layers(xs, ys),
    ensures
        same_layers(seq![l] + xs, seq![m] + ys),
{
    let a = seq![l] + xs;
    let b = seq![m] + ys;
    assert forall|i: int| 0 <= i < a.len() implies same_layer(#[trigger] a[i], b[i]) by {
        if i > 0 {
            assert(a[i] == xs[i - 1]);
            assert(b[i] == ys[i - 1]);
        }
    }
}

/// A chain agrees with itself.
pub proof fn lemma_same_layers_refl(xs: Seq<Layer>)
    ensures
        same_layers(xs, xs),
{
    assert forall|i: int| 0 <= i < xs.len() implies same_layer(#[trigger] xs[i], xs[i]) by {
        lemma_same_layer_refl(xs[i]);
    }
}

/// A scope: its frame bindings (probed from the last), its persistent map,
/// whether it is a frame, and the scope it was opened in.
pub struct Environment {
    variables: im::HashMap<String, Value>,
    locals: Vec<(String, Value)>,
    is_frame: bool,
    parent: Option<Box<Environment>>,
}

impl Environment {
    /// This scope and its ancestors, innermost first.
    pub closed spec fn layers(self) -> Seq<Layer>
        decreases self,
    {
        let here = Layer { locals: self.locals@, bindings: im_contents(self.variables), frame: self.is_frame };
        match self.parent {
            Some(p) => seq![here] + p.layers(),
            None => seq![here],
        }
    }

    /// The chain of a scope always has its own level first.
    proof fn lemma_layers(self)
        ensures
            self.layers().len() >= 1,
            self.layers()[0].locals == self.locals@,
            self.layers()[0].bindings == im_contents(self.variables),
            self.layers()[0].frame == self.is_frame,
            self.layers().drop_first() == match self.parent {
                Some(p) => p.layers(),
                None => Seq::<Layer>::empty(),
            },
        decreases self,
    {
        let here = Layer { locals: self.locals@, bindings: im_contents(self.variables), frame: self.is_frame };
        if let Some(p) = self.parent {
            p.lemma_layers();
            assert((seq![here] + p.layers()).drop_first() =~= p.layers());
        } else {
            assert(seq![here].drop_first() =~= Seq::<Layer>::empty());
        }
    }

    /// Every scope has at least its own level.
    pub proof fn lemma_layers_nonempty(&self)
        ensures
            self.layers().len() >= 1,
    {
        self.lemma_layers();
    }

    /// The root scope: nothing bound, not a frame.
    pub fn new() -> (e: Self)
        ensures
            e.layers().len() == 1,
            empty_layer(e.layers()[0], false),
    {
        Environment { variables: im_new(), locals: Vec::new(), is_frame: false, parent: None }
    }

    /// A frame opened inside `parent`.
    pub fn with_parent(parent: Environment) -> (e: Self)
        ensures
            e.layers().len() == parent.layers().len() + 1,
            empty_layer(e.layers()[0], true),
            e.layers().drop_first() == parent.layers(),
    {
        let e = Environment { variables: im_new(), locals: Vec::new(), is_frame: true, parent: Some(Box::new(parent)) };
        proof {
            e.lemma_layers();
        }
        e
    }

    /// The index of the last frame binding of `name`.
    fn last_local(&self, name: &str) -> (r: Option<usize>)
        ensures
            match r {
                Some(i) => last_index(self.locals@, name@) == Some(i as int),
                None => last_index(self.locals@, name@) is None,
            },
    {
        proof {
            lemma_last_index(self.locals@, name@);
        }
        let mut i: usize = self.locals.len();
        while i > 0
            invariant
                i <= self.locals@.len(),
                match last_index(self.locals@, name@) {
                    Some(k) => 0 <= k < self.locals@.len() && self.locals@[k].0@ == name@ && forall|j: int|
                        k < j < self.locals@.len() ==> (#[trigger] self.locals@[j]).0@ != name@,
                    None => forall|j: int| 0 <= j < self.locals@.len() ==> (#[trigger] self.locals@[j]).0@ != name@,
                },
                forall|j: int| i <= j < self.locals@.len() ==> (#[trigger] self.locals@[j]).0@ != name@,
            decreases i,
        {
            if str_eq(self.locals[i - 1].0.as_str(), name) {
                proof {
                    lemma_last_index(self.locals@, name@);
                }
                return Some(i - 1);
            }
            i = i - 1;
        }
        None
    }

    /// A copy of what `name` is bound to here or in an enclosing scope.
    pub fn get(&self, name: &str) -> (r: Option<Value>)
        ensures
            opt_same(scope_lookup(self.layers(), name@), r),
        decreases self,
    {
        proof {
            self.lemma_layers();
            lemma_last_index(self.locals@, name@);
        }
        let ls = Ghost(self.layers());
        match self.last_local(name) {
            Some(i) => {
                assert(scope_lookup(ls@, name@) == Some(self.locals@[i as int].1));
                Some(copy_value(&self.locals[i].1))
            },
            None => match im_get(&self.variables, name) {
                Some(v) => {
                    assert(scope_lookup(ls@, name@) == Some(*v));
                    Some(copy_value(v))
                },
                None => {
                    assert(layer_lookup(ls@[0], name@) is None);
                    match &self.parent {
                        Some(p) => {
                            assert(scope_lookup(ls@, name@) == scope_lookup(p.layers(), name@));
                            let r = p.get(name);
                            assert(opt_same(scope_lookup(p.layers(), name@), r));
                            assert(opt_same(scope_lookup(ls@, name@), r));
                            r
                        },
                        None => {
                            assert(ls@.drop_first().len() == 0);
                            assert(scope_lookup(ls@.drop_first(), name@) is None);
                            assert(scope_lookup(ls@, name@) is None);
                            None
                        },
                    }
                },
            },
        }
    }
}


/// What a map binds `key` to.
pub open spec fn map_get(m: Map<Seq<char>, Value>, key: Seq<char>) -> Option<Value> {
    if m.contains_key(key) {
        Some(m[key])
    } else {
        None
    }
}

/// A chain after an assignment through a resolved slot: `depth` levels up,
/// entry `slot` is rebound if it holds the name; any mismatch, or a chain
/// shorter than `depth`, falls back to an ordinary assignment (made from
/// the level where the walk stopped).
pub open spec fn slot_assign_spec(ls: Seq<Layer>, key: Seq<char>, depth: nat, slot: nat, v: Value) -> Option<
    Seq<Layer>,
>
    decreases depth,
{
    if ls.len() == 0 {
        None
    } else if depth == 0 {
        if slot < ls[0].locals.len() && ls[0].locals[slot as int].0@ == key {
            Some(
                ls.update(
                    0,
                    Layer {
                        locals: ls[0].locals.update(slot as int, (ls[0].locals[slot as int].0, v)),
                        bindings: ls[0].bindings,
                        frame: ls[0].frame,
                    },
                ),
            )
        } else {
            assign_spec(ls, key, v)
        }
    } else if ls.len() == 1 {
        assign_spec(ls, key, v)
    } else {
        match slot_assign_spec(ls.drop_first(), key, (depth - 1) as nat, slot, v) {
            Some(t) => Some(seq![ls[0]] + t),
            None => None,
        }
    }
}

/// What a resolved slot reads: entry `slot` of the level `depth` up when it
/// holds the name, else an ordinary lookup.
pub open spec fn slot_lookup(ls: Seq<Layer>, key: Seq<char>, depth: nat, slot: nat) -> Option<Value> {
    if depth < ls.len() && slot < ls[depth as int].locals.len() && ls[depth as int].locals[slot as int].0@ == key {
        Some(ls[depth as int].locals[slot as int].1)
    } else {
        scope_lookup(ls, key)
    }
}

/// What frame bindings laid over a map bind `key` to.
pub open spec fn overlay_lookup(locals: Seq<(String, Value)>, bindings: Map<Seq<char>, Value>, key: Seq<char>) -> Option<Value> {
    match last_index(locals, key) {
        Some(j) => Some(locals[j].1),
        None => map_get(bindings, key),
    }
}

/// Whether `w` is the list `old` with copies of `items` appended (its own
/// elements kept, up to copies).
pub open spec fn list_extended(old: Value, items: Seq<Value>, w: Value) -> bool {
    match (old, w) {
        (Value::List(a), Value::List(b)) => {
            &&& b@.len() == a@.len() + items.len()
            &&& forall|j: int| 0 <= j < a@.len() ==> same_value(#[trigger] a@[j], b@[j])
            &&& forall|j: int| 0 <= j < items.len() ==> same_value(#[trigger] items[j], b@[a@.len() + j])
        },
        _ => false,
    }
}

/// The frame entries whose key is not `key`, in order.
pub open spec fn without_key(entries: Seq<(String, Value)>, key: Seq<char>) -> Seq<(String, Value)>
    decreases entries.len(),
{
    if entries.len() == 0 {
        entries
    } else if entries.last().0@ == key {
        without_key(entries.drop_last(), key)
    } else {
        without_key(entries.drop_last(), key).push(entries.last())
    }
}

/// A chain after removing `key` from the innermost level (its frame
/// bindings and its map).
pub open spec fn remove_spec(ls: Seq<Layer>, key: Seq<char>) -> Seq<Layer>
    recommends
        ls.len() > 0,
{
    ls.update(0, Layer { locals: without_key(ls[0].locals, key), bindings: ls[0].bindings.remove(key), frame: ls[0].frame })
}

/// After a removal the innermost level no longer binds the key.
pub proof fn lemma_without_key(entries: Seq<(String, Value)>, key: Seq<char>)
    ensures
        last_index(without_key(entries, key), key) is None,
    decreases entries.len(),
{
    if entries.len() > 0 {
        lemma_without_key(entries.drop_last(), key);
        let w = without_key(entries.drop_last(), key);
        if entries.last().0@ != key {
            assert(w.push(entries.last()).drop_last() =~= w);
        }
    }
}

/// A removal takes the name out of the innermost level.
pub proof fn lemma_remove_spec(ls: Seq<Layer>, key: Seq<char>)
    requires
        ls.len() > 0,
    ensures
        layer_lookup(remove_spec(ls, key)[0], key) is None,
{
    lemma_without_key(ls[0].locals, key);
}

/// Rebinding a map entry whose other values were only copied keeps the
/// level agreeing with the ideal insertion.
proof fn lemma_insert_layer(l: Layer, n: Map<Seq<char>, Value>, key: Seq<char>, v: Value)
    requires
        contents_insert(l.bindings, n, key, v),
    ensures
        same_layer(
            Layer { locals: l.locals, bindings: n, frame: l.frame },
            Layer { locals: l.locals, bindings: l.bindings.insert(key, v), frame: l.frame },
        ),
{
    assert forall|k: Seq<char>| #[trigger] n.contains_key(k) implies same_value(n[k], l.bindings.insert(key, v)[k]) by {
        if k == key {
            lemma_same_value_refl(v);
        } else {
            lemma_same_value_sym(l.bindings[k], n[k]);
        }
    }
    assert(n.dom() =~= l.bindings.insert(key, v).dom());
}

/// A changed innermost level in front of an unchanged rest.
proof fn lemma_front_changed(old_ls: Seq<Layer>, new_ls: Seq<Layer>, a: Layer, b: Layer)
    requires
        old_ls.len() > 0,
        new_ls.len() == old_ls.len(),
        new_ls[0] == a,
        new_ls.drop_first() == old_ls.drop_first(),
        same_layer(a, b),
    ensures
        same_layers(new_ls, old_ls.update(0, b)),
{
    lemma_same_layers_refl(old_ls.drop_first());
    let u = old_ls.update(0, b);
    assert forall|i: int| 0 <= i < new_ls.len() implies same_layer(#[trigger] new_ls[i], u[i]) by {
        if i > 0 {
            assert(new_ls[i] == new_ls.drop_first()[i - 1]);
            assert(old_ls[i] == old_ls.drop_first()[i - 1]);
        }
    }
}

/// An unchanged innermost level in front of a rest that changed up to copies.
proof fn lemma_rest_changed(l: Layer, xs: Seq<Layer>, ys: Seq<Layer>)
    requires
        same_layers(xs, ys),
    ensures
        same_layers(seq![l] + xs, seq![l] + ys),
{
    lemma_same_layer_refl(l);
    lemma_same_layers_cons(l, l, xs, ys);
}

/// Appends exact copies of `items`.
fn push_copies(xs: &mut Vec<Value>, items: &[Value])
    ensures
        final(xs)@.len() == old(xs)@.len() + items@.len(),
        final(xs)@.subrange(0, old(xs)@.len() as int) == old(xs)@,
        forall|j: int| 0 <= j < items@.len() ==> same_value(#[trigger] items@[j], final(xs)@[old(xs)@.len() + j]),
{
    let ghost start = xs@;
    let mut i: usize = 0;
    while i < items.len()
        invariant
            i <= items@.len(),
            xs@.len() == start.len() + i,
            xs@.subrange(0, start.len() as int) == start,
            forall|j: int| 0 <= j < i ==> same_value(#[trigger] items@[j], xs@[start.len() + j]),
        decreases items@.len() - i,
    {
        let c = copy_value(&items[i]);
        xs.push(c);
        i = i + 1;
    }
}

/// The bindings of a map, copied into an association list.
fn bindings_map(m: &im::HashMap<String, Value>) -> (r: StringMap<Value>)
    ensures
        forall|k: Seq<char>| #[trigger] opt_same(map_get(im_contents(*m), k), r.spec_get(k)),
{
    let entries = im_entries(m);
    let mut r: StringMap<Value> = StringMap::new();
    let mut i: usize = 0;
    while i < entries.len()
        invariant
            i <= entries@.len(),
            forall|a: int, b: int| 0 <= a < b < entries@.len() ==> entries@[a].0@ != entries@[b].0@,
            forall|k: Seq<char>| #[trigger] r.spec_get(k) is Some <==> exists|j: int| 0 <= j < i && (#[trigger] entries@[j]).0@ == k,
            forall|j: int| 0 <= j < i ==> (r.spec_get((#[trigger] entries@[j]).0@) matches Some(x) && same_value(entries@[j].1, x)),
        decreases entries@.len() - i,
    {
        let k = copy_string(&entries[i].0);
        let v = copy_value(&entries[i].1);
        let ghost before = r;
        r.insert(k, v);
        proof {
            assert forall|q: Seq<char>| #[trigger] r.spec_get(q) is Some <==> exists|j: int| 0 <= j < i + 1 && (#[trigger] entries@[j]).0@ == q by {
                if q == entries@[i as int].0@ {
                    assert(entries@[i as int].0@ == q);
                } else {
                    if exists|j: int| 0 <= j < i + 1 && (#[trigger] entries@[j]).0@ == q {
                        let j = choose|j: int| 0 <= j < i + 1 && (#[trigger] entries@[j]).0@ == q;
                        assert(j < i);
                    }
                }
            }
            assert forall|j: int| 0 <= j < i + 1 implies (r.spec_get((#[trigger] entries@[j]).0@) matches Some(x) && same_value(entries@[j].1, x)) by {
                if j < i {
                    assert(entries@[j].0@ != entries@[i as int].0@);
                    assert(r.spec_get(entries@[j].0@) == before.spec_get(entries@[j].0@));
                }
            }
        }
        i = i + 1;
    }
    proof {
        assert forall|k: Seq<char>| #[trigger] opt_same(map_get(im_contents(*m), k), r.spec_get(k)) by {
            if im_contents(*m).contains_key(k) {
                let j = choose|j: int| 0 <= j < entries@.len() && (#[trigger] entries@[j]).0@ == k;
                let x = r.spec_get(k)->0;
                assert(same_value(im_contents(*m)[k], entries@[j].1));
                assert(same_value(entries@[j].1, x));
                lemma_same_value_trans(im_contents(*m)[k], entries@[j].1, x);
            } else {
                if r.spec_get(k) is Some {
                    let j = choose|j: int| 0 <= j < entries@.len() && (#[trigger] entries@[j]).0@ == k;
                    assert(im_contents(*m).contains_key(entries@[j].0@));
                }
            }
        }
    }
    r
}

impl Environment {
    /// Rebinds frame entry `i`, keeping its name.
    fn overwrite_local(&mut self, i: usize, value: Value)
        requires
            i < old(self).locals@.len(),
        ensures
            final(self).locals@ == old(self).locals@.update(i as int, (old(self).locals@[i as int].0, value)),
            final(self).variables == old(self).variables,
            final(self).is_frame == old(self).is_frame,
            final(self).parent == old(self).parent,
    {
        let mut e = (String::new(), Value::Unit);
        self.locals.set_and_swap(i, &mut e);
        let (k, _) = e;
        let mut back = (k, value);
        self.locals.set_and_swap(i, &mut back);
        proof {
            assert(self.locals@ =~= old(self).locals@.update(i as int, (old(self).locals@[i as int].0, value)));
        }
    }

    /// Binds `name` to `value`: a frame binding of the name is overwritten;
    /// otherwise a frame gains a binding and the root scope binds the name
    /// in its map.
    pub fn define(&mut self, name: String, value: Value)
        ensures
            same_layers(final(self).layers(), define_spec(old(self).layers(), name, value)),
    {
        proof {
            self.lemma_layers();
            lemma_last_index(self.locals@, name@);
        }
        let ghost old_ls = self.layers();
        match self.last_local(name.as_str()) {
            Some(i) => {
                self.overwrite_local(i, value);
                proof {
                    self.lemma_layers();
                    lemma_same_layer_refl(self.layers()[0]);
                    lemma_front_changed(old_ls, self.layers(), self.layers()[0], self.layers()[0]);
                }
            },
            None => {
                if self.is_frame {
                    self.locals.push((name, value));
                    proof {
                        self.lemma_layers();
                        lemma_same_layer_refl(self.layers()[0]);
                        lemma_front_changed(old_ls, self.layers(), self.layers()[0], self.layers()[0]);
                    }
                } else {
                    let ghost l = old_ls[0];
                    let ghost key = name@;
                    im_insert(&mut self.variables, name, value);
                    proof {
                        self.lemma_layers();
                        lemma_insert_layer(l, im_contents(self.variables), key, value);
                        lemma_front_changed(
                            old_ls,
                            self.layers(),
                            self.layers()[0],
                            Layer { locals: l.locals, bindings: l.bindings.insert(key, value), frame: l.frame },
                        );
                    }
                }
            },
        }
    }

    /// Binds `name` among this call frame's own bindings.
    pub fn define_local(&mut self, name: String, value: Value)
        ensures
            final(self).layers() == old(self).layers().update(
                0,
                Layer {
                    locals: old(self).layers()[0].locals.push((name, value)),
                    bindings: old(self).layers()[0].bindings,
                    frame: old(self).layers()[0].frame,
                },
            ),
    {
        proof {
            self.lemma_layers();
        }
        let ghost old_ls = self.layers();
        self.locals.push((name, value));
        proof {
            self.lemma_layers();
            assert(self.layers() =~= old_ls.update(0, self.layers()[0]));
        }
    }

    /// Rebinds `name` where it is bound: the nearest scope that binds it
    /// (its last frame binding, else its map). Fails, changing nothing,
    /// when no scope binds it.
    pub fn set(&mut self, name: &str, value: Value) -> (r: Result<(), InterpreterError>)
        ensures
            match r {
                Ok(()) => assign_spec(old(self).layers(), name@, value) is Some && same_layers(
                    final(self).layers(),
                    assign_spec(old(self).layers(), name@, value)->0,
                ),
                Err(e) => scope_lookup(old(self).layers(), name@) is None && (e matches InterpreterError::UndefinedVariable { name: n } && n@ == name@) && *final(self) == *old(self),
            },
        decreases *old(self),
    {
        proof {
            self.lemma_layers();
            lemma_last_index(self.locals@, name@);
            lemma_assign_spec(self.layers(), name@, value, name@);
        }
        let ghost old_ls = self.layers();
        match self.last_local(name) {
            Some(i) => {
                self.overwrite_local(i, value);
                proof {
                    self.lemma_layers();
                    lemma_same_layer_refl(self.layers()[0]);
                    lemma_front_changed(old_ls, self.layers(), self.layers()[0], self.layers()[0]);
                }
                Ok(())
            },
            None => {
                if im_contains_key(&self.variables, name) {
                    let ghost l = old_ls[0];
                    im_insert(&mut self.variables, owned(name), value);
                    proof {
                        self.lemma_layers();
                        lemma_insert_layer(l, im_contents(self.variables), name@, value);
                        lemma_front_changed(
                            old_ls,
                            self.layers(),
                            self.layers()[0],
                            Layer { locals: l.locals, bindings: l.bindings.insert(name@, value), frame: l.frame },
                        );
                    }
                    Ok(())
                } else {
                    let mut parent = self.parent.take();
                    match parent {
                        Some(mut b) => {
                            let ghost old_b = *b;
                            let r = (&mut *b).set(name, value);
                            self.parent = Some(b);
                            proof {
                                self.lemma_layers();
                                old_b.lemma_layers();
                                assert(old_ls.drop_first() == old_b.layers());
                                if r is Ok {
                                    let t = assign_spec(old_b.layers(), name@, value)->0;
                                    lemma_rest_changed(old_ls[0], self.layers().drop_first(), t);
                                    assert(self.layers() =~= seq![old_ls[0]] + self.layers().drop_first());
                                } else {
                                    assert(scope_lookup(old_ls, name@) == scope_lookup(old_b.layers(), name@));
                                }
                            }
                            r
                        },
                        None => {
                            self.parent = None;
                            proof {
                                assert(old_ls.drop_first().len() == 0);
                                assert(scope_lookup(old_ls.drop_first(), name@) is None);
                            }
                            Err(InterpreterError::UndefinedVariable { name: owned(name) })
                        },
                    }
                }
            },
        }
    }
}


impl Environment {
    /// A copy of entry `slot` of the scope `depth` levels up, when that
    /// entry holds `name`.
    fn slot_at(&self, name: &str, depth: u16, slot: u16) -> (r: Option<Value>)
        ensures
            match r {
                Some(v) => depth < self.layers().len() && slot < self.layers()[depth as int].locals.len()
                    && self.layers()[depth as int].locals[slot as int].0@ == name@ && same_value(
                    self.layers()[depth as int].locals[slot as int].1,
                    v,
                ),
                None => !(depth < self.layers().len() && slot < self.layers()[depth as int].locals.len()
                    && self.layers()[depth as int].locals[slot as int].0@ == name@),
            },
        decreases depth,
    {
        proof {
            self.lemma_layers();
        }
        if depth == 0 {
            let i = slot as usize;
            if i < self.locals.len() && str_eq(self.locals[i].0.as_str(), name) {
                Some(copy_value(&self.locals[i].1))
            } else {
                None
            }
        } else {
            match &self.parent {
                Some(p) => {
                    let r = p.slot_at(name, depth - 1, slot);
                    proof {
                        if depth < self.layers().len() {
                            assert(self.layers()[depth as int] == self.layers().drop_first()[depth - 1]);
                        }
                    }
                    r
                },
                None => None,
            }
        }
    }

    /// Reads a statically resolved slot: entry `slot` of the scope `depth`
    /// levels up when it holds `name`; any mismatch (or a chain shorter
    /// than `depth`) falls back to an ordinary lookup.
    pub fn get_slot(&self, name: &str, depth: u16, slot: u16) -> (r: Option<Value>)
        ensures
            opt_same(slot_lookup(self.layers(), name@, depth as nat, slot as nat), r),
    {
        match self.slot_at(name, depth, slot) {
            Some(v) => Some(v),
            None => self.get(name),
        }
    }

    /// Assigns through a statically resolved slot, with the same
    /// check-and-fall-back as `get_slot`.
    pub fn set_slot(&mut self, name: &str, depth: u16, slot: u16, value: Value) -> (r: Result<
        (),
        InterpreterError,
    >)
        ensures
            match r {
                Ok(()) => slot_assign_spec(old(self).layers(), name@, depth as nat, slot as nat, value) is Some
                    && same_layers(
                    final(self).layers(),
                    slot_assign_spec(old(self).layers(), name@, depth as nat, slot as nat, value)->0,
                ),
                Err(e) => slot_assign_spec(old(self).layers(), name@, depth as nat, slot as nat, value) is None
                    && (e matches InterpreterError::UndefinedVariable { name: n } && n@ == name@) && *final(self)
                    == *old(self),
            },
        decreases depth,
    {
        proof {
            self.lemma_layers();
            lemma_assign_spec(self.layers(), name@, value, name@);
        }
        let ghost old_ls = self.layers();
        if depth == 0 {
            let i = slot as usize;
            if i < self.locals.len() && str_eq(self.locals[i].0.as_str(), name) {
                self.overwrite_local(i, value);
                proof {
                    self.lemma_layers();
                    lemma_same_layer_refl(self.layers()[0]);
                    lemma_front_changed(old_ls, self.layers(), self.layers()[0], self.layers()[0]);
                }
                Ok(())
            } else {
                self.set(name, value)
            }
        } else if self.parent.is_none() {
            proof {
                assert(old_ls.len() == 1);
            }
            self.set(name, value)
        } else {
            let mut parent = self.parent.take();
            match parent {
                Some(mut b) => {
                    let ghost old_b = *b;
                    let r = (&mut *b).set_slot(name, depth - 1, slot, value);
                    self.parent = Some(b);
                    proof {
                        self.lemma_layers();
                        old_b.lemma_layers();
                        assert(old_ls.drop_first() == old_b.layers());
                        if r is Ok {
                            let t = slot_assign_spec(old_b.layers(), name@, (depth - 1) as nat, slot as nat, value)->0;
                            lemma_rest_changed(old_ls[0], self.layers().drop_first(), t);
                            assert(self.layers() =~= seq![old_ls[0]] + self.layers().drop_first());
                        }
                    }
                    r
                },
                None => {
                    self.parent = None;
                    Err(InterpreterError::UndefinedVariable { name: owned(name) })
                },
            }
        }
    }

    /// Takes the value bound to `name` out of its scope, leaving `Unit` in
    /// its place; `None`, changing nothing, when no scope binds it.
    pub fn take_for_move(&mut self, name: &str) -> (r: Option<Value>)
        ensures
            opt_same(scope_lookup(old(self).layers(), name@), r),
            r is Some ==> assign_spec(old(self).layers(), name@, Value::Unit) is Some && same_layers(
                final(self).layers(),
                assign_spec(old(self).layers(), name@, Value::Unit)->0,
            ),
            r is None ==> *final(self) == *old(self),
        decreases *old(self),
    {
        proof {
            self.lemma_layers();
            lemma_last_index(self.locals@, name@);
            lemma_assign_spec(self.layers(), name@, Value::Unit, name@);
        }
        let ghost old_ls = self.layers();
        match self.last_local(name) {
            Some(i) => {
                let mut e = (String::new(), Value::Unit);
                self.locals.set_and_swap(i, &mut e);
                let (k, v) = e;
                let mut back = (k, Value::Unit);
                self.locals.set_and_swap(i, &mut back);
                proof {
                    assert(self.locals@ =~= old(self).locals@.update(i as int, (old(self).locals@[i as int].0, Value::Unit)));
                    self.lemma_layers();
                    lemma_same_layer_refl(self.layers()[0]);
                    lemma_front_changed(old_ls, self.layers(), self.layers()[0], self.layers()[0]);
                    lemma_same_value_refl(v);
                }
                Some(v)
            },
            None => {
                if im_contains_key(&self.variables, name) {
                    let ghost l = old_ls[0];
                    let r = im_insert(&mut self.variables, owned(name), Value::Unit);
                    proof {
                        self.lemma_layers();
                        lemma_insert_layer(l, im_contents(self.variables), name@, Value::Unit);
                        lemma_front_changed(
                            old_ls,
                            self.layers(),
                            self.layers()[0],
                            Layer { locals: l.locals, bindings: l.bindings.insert(name@, Value::Unit), frame: l.frame },
                        );
                    }
                    r
                } else {
                    let mut parent = self.parent.take();
                    match parent {
                        Some(mut b) => {
                            let ghost old_b = *b;
                            let r = (&mut *b).take_for_move(name);
                            self.parent = Some(b);
                            proof {
                                self.lemma_layers();
                                old_b.lemma_layers();
                                assert(old_ls.drop_first() == old_b.layers());
                                assert(scope_lookup(old_ls, name@) == scope_lookup(old_b.layers(), name@));
                                if r is Some {
                                    let t = assign_spec(old_b.layers(), name@, Value::Unit)->0;
                                    lemma_rest_changed(old_ls[0], self.layers().drop_first(), t);
                                    assert(self.layers() =~= seq![old_ls[0]] + self.layers().drop_first());
                                }
                            }
                            r
                        },
                        None => {
                            self.parent = None;
                            proof {
                                assert(old_ls.drop_first().len() == 0);
                                assert(scope_lookup(old_ls.drop_first(), name@) is None);
                            }
                            None
                        },
                    }
                }
            },
        }
    }
}


impl Environment {
    /// Extends, in place, the list bound to `name` with copies of `items`.
    /// `false`, changing nothing, when no scope binds the name or it is not
    /// bound to a list (the caller then builds the concatenation itself).
    pub fn try_extend_list(&mut self, name: &str, items: &[Value]) -> (r: bool)
        ensures
            r == (scope_lookup(old(self).layers(), name@) matches Some(Value::List(_))),
            r ==> exists|w: Value|
                list_extended(scope_lookup(old(self).layers(), name@)->0, items@, w) && assign_spec(
                    old(self).layers(),
                    name@,
                    w,
                ) is Some && same_layers(final(self).layers(), #[trigger] assign_spec(old(self).layers(), name@, w)->0),
            !r ==> *final(self) == *old(self),
        decreases *old(self),
    {
        proof {
            self.lemma_layers();
            lemma_last_index(self.locals@, name@);
        }
        let ghost old_ls = self.layers();
        match self.last_local(name) {
            Some(i) => {
                let is_list = match &self.locals[i].1 {
                    Value::List(_) => true,
                    _ => false,
                };
                if !is_list {
                    return false;
                }
                let mut e = (String::new(), Value::Unit);
                self.locals.set_and_swap(i, &mut e);
                let (k, v) = e;
                match v {
                    Value::List(mut xs) => {
                        let ghost old_xs = xs;
                        push_copies(&mut xs, items);
                        let w = Value::List(xs);
                        let ghost gw = w;
                        let mut back = (k, w);
                        self.locals.set_and_swap(i, &mut back);
                        proof {
                            lemma_assign_spec(old_ls, name@, gw, name@);
                            assert(self.locals@ =~= old(self).locals@.update(i as int, (old(self).locals@[i as int].0, gw)));
                            self.lemma_layers();
                            lemma_same_layer_refl(self.layers()[0]);
                            lemma_front_changed(old_ls, self.layers(), self.layers()[0], self.layers()[0]);
                            assert forall|j: int| 0 <= j < old_xs@.len() implies same_value(#[trigger] old_xs@[j], xs@[j]) by {
                                assert(xs@[j] == xs@.subrange(0, old_xs@.len() as int)[j]);
                                lemma_same_value_refl(old_xs@[j]);
                            }
                            assert(list_extended(scope_lookup(old_ls, name@)->0, items@, gw));
                        }
                        true
                    },
                    _ => {
                        proof {
                            assert(false);
                        }
                        false
                    },
                }
            },
            None => {
                if im_contains_key(&self.variables, name) {
                    let is_list = match im_get(&self.variables, name) {
                        Some(Value::List(_)) => true,
                        _ => false,
                    };
                    if !is_list {
                        return false;
                    }
                    let ghost l = old_ls[0];
                    let ghost o = im_contents(self.variables);
                    let taken = im_insert(&mut self.variables, owned(name), Value::Unit);
                    let ghost mid = im_contents(self.variables);
                    match taken {
                        Some(Value::List(mut xs)) => {
                            let ghost old_xs = xs;
                            push_copies(&mut xs, items);
                            let w = Value::List(xs);
                            let ghost gw = w;
                            im_insert(&mut self.variables, owned(name), w);
                            proof {
                                let n = im_contents(self.variables);
                                lemma_assign_spec(old_ls, name@, gw, name@);
                                assert forall|k: Seq<char>| k != name@ && o.contains_key(k) implies same_value(
                                    #[trigger] o[k],
                                    n[k],
                                ) by {
                                    lemma_same_value_trans(o[k], mid[k], n[k]);
                                }
                                assert(n.dom() =~= o.dom().insert(name@));
                                assert(contents_insert(o, n, name@, gw));
                                self.lemma_layers();
                                lemma_insert_layer(l, n, name@, gw);
                                lemma_front_changed(
                                    old_ls,
                                    self.layers(),
                                    self.layers()[0],
                                    Layer { locals: l.locals, bindings: l.bindings.insert(name@, gw), frame: l.frame },
                                );
                                let ov = o[name@];
                                assert(ov is List);
                                let ys = ov->List_0;
                                assert(same_seq(ys@, old_xs@));
                                assert forall|j: int| 0 <= j < ys@.len() implies same_value(#[trigger] ys@[j], xs@[j]) by {
                                    assert(xs@[j] == xs@.subrange(0, old_xs@.len() as int)[j]);
                                    assert(same_value(ys@[j], old_xs@[j]));
                                }
                                assert(list_extended(scope_lookup(old_ls, name@)->0, items@, gw));
                            }
                            true
                        },
                        _ => {
                            proof {
                                assert(false);
                            }
                            false
                        },
                    }
                } else {
                    let mut parent = self.parent.take();
                    match parent {
                        Some(mut b) => {
                            let ghost old_b = *b;
                            let r = (&mut *b).try_extend_list(name, items);
                            self.parent = Some(b);
                            proof {
                                self.lemma_layers();
                                old_b.lemma_layers();
                                assert(old_ls.drop_first() == old_b.layers());
                                assert(scope_lookup(old_ls, name@) == scope_lookup(old_b.layers(), name@));
                                if r {
                                    let w = choose|w: Value|
                                        list_extended(scope_lookup(old_b.layers(), name@)->0, items@, w) && assign_spec(
                                            old_b.layers(),
                                            name@,
                                            w,
                                        ) is Some && same_layers(
                                            self.layers().drop_first(),
                                            #[trigger] assign_spec(old_b.layers(), name@, w)->0,
                                        );
                                    let t = assign_spec(old_b.layers(), name@, w)->0;
                                    lemma_rest_changed(old_ls[0], self.layers().drop_first(), t);
                                    assert(self.layers() =~= seq![old_ls[0]] + self.layers().drop_first());
                                    assert(same_layers(self.layers(), assign_spec(old_ls, name@, w)->0));
                                }
                            }
                            r
                        },
                        None => {
                            self.parent = None;
                            proof {
                                assert(old_ls.drop_first().len() == 0);
                                assert(scope_lookup(old_ls.drop_first(), name@) is None);
                            }
                            false
                        },
                    }
                }
            },
        }
    }

    /// This scope's own bindings (not its ancestors'): its map with its
    /// frame bindings laid over it.
    pub fn get_all_variables(&self) -> (r: StringMap<Value>)
        ensures
            forall|k: Seq<char>| #[trigger] opt_same(layer_lookup(self.layers()[0], k), r.spec_get(k)),
    {
        proof {
            self.lemma_layers();
        }
        let mut r = bindings_map(&self.variables);
        let mut i: usize = 0;
        while i < self.locals.len()
            invariant
                i <= self.locals@.len(),
                forall|k: Seq<char>|
                    #[trigger] opt_same(
                        overlay_lookup(self.locals@.take(i as int), im_contents(self.variables), k),
                        r.spec_get(k),
                    ),
            decreases self.locals@.len() - i,
        {
            let k = copy_string(&self.locals[i].0);
            let v = copy_value(&self.locals[i].1);
            let ghost before = r;
            r.insert(k, v);
            proof {
                let t = self.locals@.take(i + 1);
                assert(t.drop_last() =~= self.locals@.take(i as int));
                assert(t.last() == self.locals@[i as int]);
                assert forall|q: Seq<char>|
                    #[trigger] opt_same(
                        overlay_lookup(self.locals@.take(i + 1), im_contents(self.variables), q),
                        r.spec_get(q),
                    ) by {
                    assert(opt_same(overlay_lookup(self.locals@.take(i as int), im_contents(self.variables), q), before.spec_get(q)));
                    lemma_last_index(self.locals@.take(i as int), q);
                    if q != self.locals@[i as int].0@ {
                        match last_index(self.locals@.take(i as int), q) {
                            Some(j) => {
                                assert(self.locals@.take(i as int)[j] == self.locals@[j]);
                                assert(t[j] == self.locals@[j]);
                            },
                            None => {},
                        }
                    }
                }
            }
            i = i + 1;
        }
        proof {
            assert(self.locals@.take(self.locals@.len() as int) =~= self.locals@);
            assert forall|k: Seq<char>| #[trigger] opt_same(layer_lookup(self.layers()[0], k), r.spec_get(k)) by {
                assert(opt_same(
                    overlay_lookup(self.locals@.take(self.locals@.len() as int), im_contents(self.variables), k),
                    r.spec_get(k),
                ));
            }
        }
        r
    }

    /// This scope's map, taken apart (its frame bindings are not included).
    pub fn into_variables(self) -> (r: StringMap<Value>)
        ensures
            forall|k: Seq<char>| #[trigger] opt_same(map_get(self.layers()[0].bindings, k), r.spec_get(k)),
    {
        proof {
            self.lemma_layers();
        }
        bindings_map(&self.variables)
    }

    /// Removes `name` from this scope: every frame binding of it and its
    /// map entry.
    pub fn remove_variable(&mut self, name: &str)
        ensures
            same_layers(final(self).layers(), remove_spec(old(self).layers(), name@)),
    {
        proof {
            self.lemma_layers();
        }
        let ghost old_ls = self.layers();
        let ghost old_locals = self.locals@;
        let mut kept: Vec<(String, Value)> = Vec::new();
        let mut i: usize = 0;
        while i < self.locals.len()
            invariant
                i <= self.locals@.len(),
                self.locals@.len() == old_locals.len(),
                forall|j: int| i <= j < old_locals.len() ==> #[trigger] self.locals@[j] == old_locals[j],
                kept@ == without_key(old_locals.take(i as int), name@),
                self.variables == old(self).variables,
                self.is_frame == old(self).is_frame,
                self.parent == old(self).parent,
            decreases self.locals@.len() - i,
        {
            let ghost t = old_locals.take(i + 1);
            proof {
                assert(t.drop_last() =~= old_locals.take(i as int));
                assert(t.last() == old_locals[i as int]);
            }
            if !str_eq(self.locals[i].0.as_str(), name) {
                let mut e = (String::new(), Value::Unit);
                self.locals.set_and_swap(i, &mut e);
                kept.push(e);
            }
            i = i + 1;
        }
        proof {
            assert(old_locals.take(old_locals.len() as int) =~= old_locals);
        }
        self.locals = kept;
        let ghost l = old_ls[0];
        im_remove(&mut self.variables, name);
        proof {
            self.lemma_layers();
            let n = im_contents(self.variables);
            let b = Layer { locals: without_key(l.locals, name@), bindings: l.bindings.remove(name@), frame: l.frame };
            assert(n.dom() =~= b.bindings.dom());
            assert forall|k: Seq<char>| #[trigger] n.contains_key(k) implies same_value(n[k], b.bindings[k]) by {
                lemma_same_value_sym(l.bindings[k], n[k]);
            }
            lemma_front_changed(old_ls, self.layers(), self.layers()[0], b);
        }
    }

    /// Room for more bindings: the persistent map grows by itself, so
    /// nothing changes.
    pub fn reserve(&mut self, additional: usize)
        ensures
            *final(self) == *old(self),
    {
    }

    /// This scope's own bindings as a persistent map: its map with its
    /// frame bindings laid over it.
    pub fn flat_snapshot(&self) -> (r: im::HashMap<String, Value>)
        ensures
            forall|k: Seq<char>| #[trigger] opt_same(layer_lookup(self.layers()[0], k), map_get(im_contents(r), k)),
    {
        proof {
            self.lemma_layers();
        }
        let mut snapshot = im_clone(&self.variables);
        proof {
            assert(self.locals@.take(0) =~= Seq::<(String, Value)>::empty());
            assert forall|k: Seq<char>|
                #[trigger] opt_same(
                    overlay_lookup(self.locals@.take(0), im_contents(self.variables), k),
                    map_get(im_contents(snapshot), k),
                ) by {
                if im_contents(self.variables).contains_key(k) {
                    lemma_same_value_refl(im_contents(self.variables)[k]);
                }
            }
        }
        let mut i: usize = 0;
        while i < self.locals.len()
            invariant
                i <= self.locals@.len(),
                forall|k: Seq<char>|
                    #[trigger] opt_same(
                        overlay_lookup(self.locals@.take(i as int), im_contents(self.variables), k),
                        map_get(im_contents(snapshot), k),
                    ),
            decreases self.locals@.len() - i,
        {
            let k = copy_string(&self.locals[i].0);
            let v = copy_value(&self.locals[i].1);
            let ghost before = im_contents(snapshot);
            im_insert(&mut snapshot, k, v);
            proof {
                let t = self.locals@.take(i + 1);
                assert(t.drop_last() =~= self.locals@.take(i as int));
                assert(t.last() == self.locals@[i as int]);
                assert forall|q: Seq<char>|
                    #[trigger] opt_same(
                        overlay_lookup(self.locals@.take(i + 1), im_contents(self.variables), q),
                        map_get(im_contents(snapshot), q),
                    ) by {
                    assert(opt_same(overlay_lookup(self.locals@.take(i as int), im_contents(self.variables), q), map_get(before, q)));
                    lemma_last_index(self.locals@.take(i as int), q);
                    if q != self.locals@[i as int].0@ {
                        match last_index(self.locals@.take(i as int), q) {
                            Some(j) => {
                                assert(self.locals@.take(i as int)[j] == self.locals@[j]);
                                assert(t[j] == self.locals@[j]);
                            },
                            None => {},
                        }
                        if before.contains_key(q) {
                            let x = overlay_lookup(self.locals@.take(i as int), im_contents(self.variables), q)->0;
                            lemma_same_value_trans(x, before[q], im_contents(snapshot)[q]);
                        }
                    }
                }
            }
            i = i + 1;
        }
        proof {
            assert(self.locals@.take(self.locals@.len() as int) =~= self.locals@);
            assert forall|k: Seq<char>| #[trigger] opt_same(layer_lookup(self.layers()[0], k), map_get(im_contents(snapshot), k)) by {
                assert(opt_same(
                    overlay_lookup(self.locals@.take(self.locals@.len() as int), im_contents(self.variables), k),
                    map_get(im_contents(snapshot), k),
                ));
            }
        }
        snapshot
    }
}

/// The first of two optional values that is present.
pub open spec fn first_of(a: Option<Value>, b: Option<Value>) -> Option<Value> {
    match a {
        Some(v) => Some(v),
        None => b,
    }
}

/// The value of the last entry whose key is `key`.
pub open spec fn last_value(entries: Seq<(String, Value)>, key: Seq<char>) -> Option<Value> {
    match last_index(entries, key) {
        Some(i) => Some(entries[i].1),
        None => None,
    }
}

proof fn lemma_opt_same_refl(a: Option<Value>)
    ensures
        opt_same(a, a),
{
    if let Some(v) = a {
        lemma_same_value_refl(v);
    }
}

proof fn lemma_opt_same_trans(a: Option<Value>, b: Option<Value>, c: Option<Value>)
    requires
        opt_same(a, b),
        opt_same(b, c),
    ensures
        opt_same(a, c),
{
    if let (Some(x), Some(y), Some(z)) = (a, b, c) {
        lemma_same_value_trans(x, y, z);
    }
}

proof fn lemma_opt_same_sym(a: Option<Value>, b: Option<Value>)
    requires
        opt_same(a, b),
    ensures
        opt_same(b, a),
{
    if let (Some(x), Some(y)) = (a, b) {
        lemma_same_value_sym(x, y);
    }
}

/// Choosing between copies chooses copies.
proof fn lemma_first_of_same(a: Option<Value>, b: Option<Value>, z: Option<Value>)
    requires
        opt_same(a, b),
    ensures
        opt_same(first_of(a, z), first_of(b, z)),
{
    lemma_opt_same_refl(z);
}

/// Putting an entry in front only matters where the rest does not bind
/// the key.
proof fn lemma_last_value_prepend(e: (String, Value), rest: Seq<(String, Value)>, key: Seq<char>)
    ensures
        last_value(seq![e] + rest, key) == first_of(
            last_value(rest, key),
            if e.0@ == key {
                Some(e.1)
            } else {
                None
            },
        ),
    decreases rest.len(),
{
    let all = seq![e] + rest;
    if rest.len() == 0 {
        assert(all =~= seq![e]);
        assert(all.drop_last() =~= Seq::<(String, Value)>::empty());
    } else {
        assert(all.drop_last() =~= seq![e] + rest.drop_last());
        assert(all.last() == rest.last());
        lemma_last_value_prepend(e, rest.drop_last(), key);
        if rest.last().0@ != key {
            if let Some(i) = last_index(all.drop_last(), key) {
                lemma_last_index_bounds(all.drop_last(), key);
                assert(all.drop_last()[i] == all[i]);
            }
            if let Some(i) = last_index(rest.drop_last(), key) {
                lemma_last_index_bounds(rest.drop_last(), key);
                assert(rest.drop_last()[i] == rest[i]);
            }
        }
    }
}

proof fn lemma_last_index_bounds(entries: Seq<(String, Value)>, key: Seq<char>)
    ensures
        match last_index(entries, key) {
            Some(i) => 0 <= i < entries.len() && entries[i].0@ == key,
            None => true,
        },
    decreases entries.len(),
{
    if entries.len() > 0 && entries.last().0@ != key {
        lemma_last_index_bounds(entries.drop_last(), key);
    }
}

impl Environment {
    /// The chain's lookup is its own level's, else its ancestors'.
    proof fn lemma_scope_split(&self, key: Seq<char>)
        ensures
            scope_lookup(self.layers(), key) == first_of(
                layer_lookup(self.layers()[0], key),
                match self.parent {
                    Some(p) => scope_lookup(p.layers(), key),
                    None => None,
                },
            ),
            match self.parent {
                Some(p) => p.layers().len() < self.layers().len(),
                None => true,
            },
    {
        self.lemma_layers();
        if self.parent is None {
            assert(self.layers().drop_first() =~= Seq::<Layer>::empty());
        }
    }

    /// Adds this scope's own bindings to `acc` where it binds nothing yet:
    /// its frame bindings (the last binding of a name first), then its map.
    fn absorb_level(&self, acc: &mut im::HashMap<String, Value>)
        ensures
            forall|k: Seq<char>|
                #[trigger] opt_same(
                    first_of(map_get(im_contents(*old(acc)), k), layer_lookup(self.layers()[0], k)),
                    map_get(im_contents(*final(acc)), k),
                ),
    {
        proof {
            self.lemma_layers();
        }
        let ghost start = im_contents(*acc);
        let n = self.locals.len();
        let mut j: usize = n;
        proof {
            assert(self.locals@.subrange(n as int, n as int) =~= Seq::<(String, Value)>::empty());
            assert forall|k: Seq<char>|
                #[trigger] opt_same(
                    first_of(map_get(start, k), last_value(self.locals@.subrange(j as int, n as int), k)),
                    map_get(im_contents(*acc), k),
                ) by {
                lemma_opt_same_refl(map_get(start, k));
            }
        }
        while j > 0
            invariant
                j <= n,
                n == self.locals@.len(),
                forall|k: Seq<char>|
                    #[trigger] opt_same(
                        first_of(map_get(start, k), last_value(self.locals@.subrange(j as int, n as int), k)),
                        map_get(im_contents(*acc), k),
                    ),
            decreases j,
        {
            let ghost jo = j;
            j = j - 1;
            let name = &self.locals[j].0;
            let value = &self.locals[j].1;
            let ghost before = im_contents(*acc);
            let ghost e = self.locals@[j as int];
            proof {
                assert(self.locals@.subrange(j as int, n as int) =~= seq![e] + self.locals@.subrange(
                    jo as int,
                    n as int,
                ));
            }
            if !im_contains_key(acc, name.as_str()) {
                let v = copy_value(value);
                im_insert(acc, copy_string(name), v);
            }
            proof {
                assert forall|k: Seq<char>|
                    #[trigger] opt_same(
                        first_of(map_get(start, k), last_value(self.locals@.subrange(j as int, n as int), k)),
                        map_get(im_contents(*acc), k),
                    ) by {
                    lemma_last_value_prepend(e, self.locals@.subrange(jo as int, n as int), k);
                    let prev = first_of(map_get(start, k), last_value(self.locals@.subrange(jo as int, n as int), k));
                    assert(opt_same(prev, map_get(before, k)));
                    if k == name@ {
                        if before.contains_key(k) {
                            assert(map_get(im_contents(*acc), k) == map_get(before, k));
                        } else {
                            assert(prev is None);
                            assert(map_get(im_contents(*acc), k) == Some(im_contents(*acc)[k]));
                        }
                    } else if before.contains_key(k) {
                        lemma_same_value_refl(before[k]);
                        assert(same_value(before[k], im_contents(*acc)[k]));
                        lemma_opt_same_trans(prev, map_get(before, k), map_get(im_contents(*acc), k));
                    }
                }
            }
        }
        let ghost after_locals = im_contents(*acc);
        proof {
            assert(self.locals@.subrange(0, n as int) =~= self.locals@);
        }
        let entries = im_entries(&self.variables);
        let mut i: usize = 0;
        proof {
            assert forall|k: Seq<char>|
                #![trigger map_get(im_contents(*acc), k)]
                match map_get(after_locals, k) {
                    Some(v) => opt_same(Some(v), map_get(im_contents(*acc), k)),
                    None => if exists|a: int| 0 <= a < i && (#[trigger] entries@[a]).0@ == k {
                        opt_same(map_get(im_contents(self.variables), k), map_get(im_contents(*acc), k))
                    } else {
                        map_get(im_contents(*acc), k) is None
                    },
                } by {
                lemma_opt_same_refl(map_get(after_locals, k));
            }
        }
        while i < entries.len()
            invariant
                i <= entries@.len(),
                n == self.locals@.len(),
                forall|a: int, b: int| 0 <= a < b < entries@.len() ==> entries@[a].0@ != entries@[b].0@,
                forall|a: int|
                    0 <= a < entries@.len() ==> im_contents(self.variables).contains_key((#[trigger] entries@[a]).0@)
                        && same_value(im_contents(self.variables)[entries@[a].0@], entries@[a].1),
                forall|k: Seq<char>|
                    #[trigger] opt_same(
                        first_of(map_get(start, k), last_value(self.locals@, k)),
                        map_get(after_locals, k),
                    ),
                forall|k: Seq<char>|
                    #![trigger map_get(im_contents(*acc), k)]
                    match map_get(after_locals, k) {
                        Some(v) => opt_same(Some(v), map_get(im_contents(*acc), k)),
                        None => if exists|a: int| 0 <= a < i && (#[trigger] entries@[a]).0@ == k {
                            opt_same(map_get(im_contents(self.variables), k), map_get(im_contents(*acc), k))
                        } else {
                            map_get(im_contents(*acc), k) is None
                        },
                    },
            decreases entries@.len() - i,
        {
            let name = &entries[i].0;
            let value = &entries[i].1;
            let ghost before = im_contents(*acc);
            let ghost i0 = i;
            if !im_contains_key(acc, name.as_str()) {
                let v = copy_value(value);
                im_insert(acc, copy_string(name), v);
            }
            proof {
                assert forall|k: Seq<char>|
                    #![trigger map_get(im_contents(*acc), k)]
                    match map_get(after_locals, k) {
                        Some(v) => opt_same(Some(v), map_get(im_contents(*acc), k)),
                        None => if exists|a: int| 0 <= a < i0 + 1 && (#[trigger] entries@[a]).0@ == k {
                            opt_same(map_get(im_contents(self.variables), k), map_get(im_contents(*acc), k))
                        } else {
                            map_get(im_contents(*acc), k) is None
                        },
                    } by {
                    let was = map_get(before, k);
                    if k == name@ {
                        if before.contains_key(k) {
                            assert(map_get(im_contents(*acc), k) == was);
                            if map_get(after_locals, k) is None {
                                if !(exists|a: int| 0 <= a < i0 && (#[trigger] entries@[a]).0@ == k) {
                                    assert(was is None);
                                }
                                assert(entries@[i0 as int].0@ == k);
                            }
                        } else {
                            assert(map_get(after_locals, k) is None) by {
                                if let Some(v) = map_get(after_locals, k) {
                                    assert(opt_same(Some(v), was));
                                }
                            }
                            assert(entries@[i0 as int].0@ == k);
                            assert(same_value(im_contents(self.variables)[k], entries@[i0 as int].1));
                            assert(same_value(*value, im_contents(*acc)[k]));
                            lemma_same_value_trans(
                                im_contents(self.variables)[k],
                                entries@[i0 as int].1,
                                im_contents(*acc)[k],
                            );
                        }
                    } else {
                        if before.contains_key(k) {
                            lemma_same_value_refl(before[k]);
                            assert(same_value(before[k], im_contents(*acc)[k]));
                        }
                        match map_get(after_locals, k) {
                            Some(v) => {
                                lemma_opt_same_trans(Some(v), was, map_get(im_contents(*acc), k));
                            },
                            None => {
                                if exists|a: int| 0 <= a < i0 + 1 && (#[trigger] entries@[a]).0@ == k {
                                    let a = choose|a: int| 0 <= a < i0 + 1 && (#[trigger] entries@[a]).0@ == k;
                                    assert(a < i0);
                                    lemma_opt_same_trans(
                                        map_get(im_contents(self.variables), k),
                                        was,
                                        map_get(im_contents(*acc), k),
                                    );
                                } else {
                                    assert(!(exists|a: int| 0 <= a < i0 && (#[trigger] entries@[a]).0@ == k));
                                }
                            },
                        }
                    }
                }
            }
            i = i + 1;
        }
        proof {
            assert forall|k: Seq<char>|
                #[trigger] opt_same(
                    first_of(map_get(start, k), layer_lookup(self.layers()[0], k)),
                    map_get(im_contents(*acc), k),
                ) by {
                let want = first_of(map_get(start, k), layer_lookup(self.layers()[0], k));
                let mid = first_of(map_get(start, k), last_value(self.locals@, k));
                assert(opt_same(mid, map_get(after_locals, k)));
                match map_get(after_locals, k) {
                    Some(v) => {
                        assert(mid is Some);
                        assert(want == mid);
                        lemma_opt_same_trans(want, Some(v), map_get(im_contents(*acc), k));
                    },
                    None => {
                        assert(mid is None);
                        assert(want == map_get(im_contents(self.variables), k));
                        if im_contents(self.variables).contains_key(k) {
                            let a = choose|a: int| 0 <= a < entries@.len() && (#[trigger] entries@[a]).0@ == k;
                            assert(exists|b: int| 0 <= b < i && (#[trigger] entries@[b]).0@ == k);
                        }
                    },
                }
            }
        }
    }

    /// Adds the bindings of this scope and its ancestors to `acc` where it
    /// binds nothing yet, nearer scopes first.
    fn absorb_chain(&self, acc: &mut im::HashMap<String, Value>)
        ensures
            forall|k: Seq<char>|
                #[trigger] opt_same(
                    first_of(map_get(im_contents(*old(acc)), k), scope_lookup(self.layers(), k)),
                    map_get(im_contents(*final(acc)), k),
                ),
        decreases self.layers().len(),
    {
        let ghost a0 = im_contents(*acc);
        self.absorb_level(acc);
        let ghost a1 = im_contents(*acc);
        proof {
            self.lemma_scope_split(Seq::empty());
        }
        match &self.parent {
            Some(p) => {
                p.absorb_chain(acc);
                proof {
                    assert forall|k: Seq<char>|
                        #[trigger] opt_same(
                            first_of(map_get(a0, k), scope_lookup(self.layers(), k)),
                            map_get(im_contents(*acc), k),
                        ) by {
                        self.lemma_scope_split(k);
                        let x = first_of(map_get(a0, k), layer_lookup(self.layers()[0], k));
                        assert(opt_same(x, map_get(a1, k)));
                        assert(opt_same(first_of(map_get(a1, k), scope_lookup(p.layers(), k)), map_get(im_contents(*acc), k)));
                        lemma_opt_same_sym(x, map_get(a1, k));
                        lemma_first_of_same(map_get(a1, k), x, scope_lookup(p.layers(), k));
                        lemma_opt_same_sym(first_of(map_get(a1, k), scope_lookup(p.layers(), k)), first_of(x, scope_lookup(p.layers(), k)));
                        lemma_opt_same_trans(
                            first_of(x, scope_lookup(p.layers(), k)),
                            first_of(map_get(a1, k), scope_lookup(p.layers(), k)),
                            map_get(im_contents(*acc), k),
                        );
                    }
                }
            },
            None => {
                proof {
                    assert forall|k: Seq<char>|
                        #[trigger] opt_same(
                            first_of(map_get(a0, k), scope_lookup(self.layers(), k)),
                            map_get(im_contents(*acc), k),
                        ) by {
                        self.lemma_scope_split(k);
                        assert(first_of(layer_lookup(self.layers()[0], k), None) == layer_lookup(self.layers()[0], k));
                    }
                }
            },
        }
    }

    /// Every binding this scope can see, as one persistent map: this
    /// scope's own bindings, then each ancestor's where nothing nearer
    /// binds the name (what a closure made here captures).
    pub fn collect_all_accessible_variables(&self) -> (r: im::HashMap<String, Value>)
        ensures
            forall|k: Seq<char>| #[trigger] opt_same(scope_lookup(self.layers(), k), map_get(im_contents(r), k)),
    {
        let mut all = self.flat_snapshot();
        let ghost snap = im_contents(all);
        match &self.parent {
            Some(p) => {
                p.absorb_chain(&mut all);
                proof {
                    assert forall|k: Seq<char>|
                        #[trigger] opt_same(scope_lookup(self.layers(), k), map_get(im_contents(all), k)) by {
                        self.lemma_scope_split(k);
                        let l0 = layer_lookup(self.layers()[0], k);
                        let up = scope_lookup(p.layers(), k);
                        assert(opt_same(l0, map_get(snap, k)));
                        lemma_first_of_same(l0, map_get(snap, k), up);
                        lemma_opt_same_trans(first_of(l0, up), first_of(map_get(snap, k), up), map_get(im_contents(all), k));
                    }
                }
            },
            None => {
                proof {
                    assert forall|k: Seq<char>|
                        #[trigger] opt_same(scope_lookup(self.layers(), k), map_get(im_contents(all), k)) by {
                        self.lemma_scope_split(k);
                        assert(first_of(layer_lookup(self.layers()[0], k), None) == layer_lookup(self.layers()[0], k));
                    }
                }
            },
        }
        all
    }
}

/// Whether a value is a module: a struct named `Module`.
pub open spec fn is_module_value(v: Value) -> bool {
    v matches Value::Struct { struct_name, .. } && struct_name@ == "Module"@
}

/// Whether a binding stays when the user's definitions are cleared: a
/// builtin (by name) or a module.
pub open spec fn kept_on_clear(builtins: Seq<Seq<char>>, k: Seq<char>, v: Value) -> bool {
    builtins.contains(k) || is_module_value(v)
}

/// Whether a value is a module, checked on the value itself.
fn is_module(v: &Value) -> (r: bool)
    ensures
        r == is_module_value(*v),
{
    proof {
        reveal_strlit("Module");
    }
    match v {
        Value::Struct { struct_name, .. } => str_eq(struct_name.as_str(), "Module"),
        _ => false,
    }
}

impl Environment {
    /// Removes the user's definitions from this scope's map, keeping the
    /// builtins (by name) and every module; frame bindings and ancestors
    /// are untouched.
    pub fn clear_user_environment(&mut self, builtin_names: &Vec<String>)
        ensures
            final(self).layers().drop_first() == old(self).layers().drop_first(),
            final(self).layers()[0].locals == old(self).layers()[0].locals,
            final(self).layers()[0].frame == old(self).layers()[0].frame,
            forall|k: Seq<char>|
                #[trigger] final(self).layers()[0].bindings.contains_key(k) <==> old(self).layers()[0].bindings.contains_key(k)
                    && kept_on_clear(views(builtin_names@), k, old(self).layers()[0].bindings[k]),
            forall|k: Seq<char>|
                #[trigger] final(self).layers()[0].bindings.contains_key(k) ==> same_value(
                    old(self).layers()[0].bindings[k],
                    final(self).layers()[0].bindings[k],
                ),
    {
        proof {
            self.lemma_layers();
        }
        let ghost start = im_contents(self.variables);
        let ghost old_up = self.layers().drop_first();
        let entries = im_entries(&self.variables);
        let mut i: usize = 0;
        proof {
            assert forall|k: Seq<char>| #[trigger] start.contains_key(k) implies same_value(start[k], start[k]) by {
                lemma_same_value_refl(start[k]);
            }
        }
        while i < entries.len()
            invariant
                i <= entries@.len(),
                self.locals == old(self).locals,
                self.is_frame == old(self).is_frame,
                self.parent == old(self).parent,
                start == im_contents(old(self).variables),
                forall|a: int, b: int| 0 <= a < b < entries@.len() ==> entries@[a].0@ != entries@[b].0@,
                forall|a: int|
                    0 <= a < entries@.len() ==> start.contains_key((#[trigger] entries@[a]).0@) && same_value(
                        start[entries@[a].0@],
                        entries@[a].1,
                    ),
                forall|k: Seq<char>| #[trigger] start.contains_key(k) ==> exists|a: int| 0 <= a < entries@.len() && (#[trigger] entries@[a]).0@ == k,
                forall|k: Seq<char>|
                    #[trigger] im_contents(self.variables).contains_key(k) <==> start.contains_key(k) && (kept_on_clear(
                        views(builtin_names@),
                        k,
                        start[k],
                    ) || !(exists|a: int| 0 <= a < i && (#[trigger] entries@[a]).0@ == k)),
                forall|k: Seq<char>|
                    #[trigger] im_contents(self.variables).contains_key(k) ==> same_value(start[k], im_contents(self.variables)[k]),
            decreases entries@.len() - i,
        {
            let name = &entries[i].0;
            let value = &entries[i].1;
            let ghost before = im_contents(self.variables);
            let ghost i0 = i;
            let keep = contains_name(builtin_names, name) || is_module(value);
            proof {
                lemma_same_value_module(start[name@], *value);
            }
            if !keep {
                im_remove(&mut self.variables, name.as_str());
            }
            proof {
                assert forall|k: Seq<char>|
                    #[trigger] im_contents(self.variables).contains_key(k) <==> start.contains_key(k) && (kept_on_clear(
                        views(builtin_names@),
                        k,
                        start[k],
                    ) || !(exists|a: int| 0 <= a < i0 + 1 && (#[trigger] entries@[a]).0@ == k)) by {
                    if k != name@ {
                        if exists|a: int| 0 <= a < i0 + 1 && (#[trigger] entries@[a]).0@ == k {
                            let a = choose|a: int| 0 <= a < i0 + 1 && (#[trigger] entries@[a]).0@ == k;
                            assert(a < i0);
                        }
                    } else {
                        assert(entries@[i0 as int].0@ == k);
                        if exists|a: int| 0 <= a < i0 && (#[trigger] entries@[a]).0@ == k {
                            let a = choose|a: int| 0 <= a < i0 && (#[trigger] entries@[a]).0@ == k;
                            assert(entries@[a].0@ != entries@[i0 as int].0@);
                        }
                    }
                }
                assert forall|k: Seq<char>|
                    #[trigger] im_contents(self.variables).contains_key(k) implies same_value(start[k], im_contents(self.variables)[k]) by {
                    if keep {
                    } else {
                        assert(before.contains_key(k));
                        assert(same_value(before[k], im_contents(self.variables)[k]));
                        lemma_same_value_trans(start[k], before[k], im_contents(self.variables)[k]);
                    }
                }
            }
            i = i + 1;
        }
        proof {
            self.lemma_layers();
            assert forall|k: Seq<char>|
                #[trigger] im_contents(self.variables).contains_key(k) <==> start.contains_key(k) && kept_on_clear(
                    views(builtin_names@),
                    k,
                    start[k],
                ) by {
                if start.contains_key(k) {
                    let a = choose|a: int| 0 <= a < entries@.len() && (#[trigger] entries@[a]).0@ == k;
                    assert(exists|b: int| 0 <= b < i && (#[trigger] entries@[b]).0@ == k);
                }
            }
        }
    }

    /// This scope's own map without the builtins: each user binding once,
    /// as a copy, in the map's iteration order.
    pub fn get_user_variables(&self, builtin_names: &Vec<String>) -> (r: Vec<(String, Value)>)
        ensures
            forall|a: int, b: int| 0 <= a < b < r@.len() ==> r@[a].0@ != r@[b].0@,
            forall|a: int|
                0 <= a < r@.len() ==> self.layers()[0].bindings.contains_key((#[trigger] r@[a]).0@) && !views(
                    builtin_names@,
                ).contains(r@[a].0@) && same_value(self.layers()[0].bindings[r@[a].0@], r@[a].1),
            forall|k: Seq<char>|
                #[trigger] self.layers()[0].bindings.contains_key(k) && !views(builtin_names@).contains(k) ==> exists|a: int|
                    0 <= a < r@.len() && (#[trigger] r@[a]).0@ == k,
    {
        proof {
            self.lemma_layers();
        }
        let ghost m = im_contents(self.variables);
        let entries = im_entries(&self.variables);
        let mut r: Vec<(String, Value)> = Vec::new();
        let mut i: usize = 0;
        while i < entries.len()
            invariant
                i <= entries@.len(),
                m == self.layers()[0].bindings,
                forall|a: int, b: int| 0 <= a < b < entries@.len() ==> entries@[a].0@ != entries@[b].0@,
                forall|a: int|
                    0 <= a < entries@.len() ==> m.contains_key((#[trigger] entries@[a]).0@) && same_value(
                        m[entries@[a].0@],
                        entries@[a].1,
                    ),
                forall|k: Seq<char>| #[trigger] m.contains_key(k) ==> exists|a: int| 0 <= a < entries@.len() && (#[trigger] entries@[a]).0@ == k,
                forall|a: int|
                    0 <= a < r@.len() ==> exists|b: int| 0 <= b < i && (#[trigger] entries@[b]).0@ == (#[trigger] r@[a]).0@,
                forall|a: int, b: int| 0 <= a < b < r@.len() ==> r@[a].0@ != r@[b].0@,
                forall|a: int|
                    0 <= a < r@.len() ==> m.contains_key((#[trigger] r@[a]).0@) && !views(builtin_names@).contains(
                        r@[a].0@,
                    ) && same_value(m[r@[a].0@], r@[a].1),
                forall|b: int|
                    0 <= b < i && !views(builtin_names@).contains((#[trigger] entries@[b]).0@) ==> exists|a: int|
                        0 <= a < r@.len() && (#[trigger] r@[a]).0@ == entries@[b].0@,
            decreases entries@.len() - i,
        {
            let name = &entries[i].0;
            let ghost i0 = i;
            if !contains_name(builtin_names, name) {
                let ghost r0 = r@;
                let v = copy_value(&entries[i].1);
                r.push((copy_string(name), v));
                proof {
                    assert(r@[r0.len() as int].0@ == name@);
                    lemma_same_value_trans(m[name@], entries@[i0 as int].1, r@[r0.len() as int].1);
                    assert forall|a: int| 0 <= a < r@.len() implies exists|b: int|
                        0 <= b < i0 + 1 && (#[trigger] entries@[b]).0@ == (#[trigger] r@[a]).0@ by {
                        if a < r0.len() {
                            assert(r@[a] == r0[a]);
                            let b = choose|b: int| 0 <= b < i0 && (#[trigger] entries@[b]).0@ == r0[a].0@;
                            assert(entries@[b].0@ == r@[a].0@);
                        } else {
                            assert(entries@[i0 as int].0@ == r@[a].0@);
                        }
                    }
                    assert forall|a: int, b: int| 0 <= a < b < r@.len() implies r@[a].0@ != r@[b].0@ by {
                        if b == r0.len() {
                            assert(r@[a] == r0[a]);
                            let c = choose|c: int| 0 <= c < i0 && (#[trigger] entries@[c]).0@ == r0[a].0@;
                            assert(entries@[c].0@ != entries@[i0 as int].0@);
                        } else {
                            assert(r@[a] == r0[a] && r@[b] == r0[b]);
                        }
                    }
                    assert forall|a: int|
                        0 <= a < r@.len() implies m.contains_key((#[trigger] r@[a]).0@) && !views(builtin_names@).contains(
                            r@[a].0@,
                        ) && same_value(m[r@[a].0@], r@[a].1) by {
                        if a < r0.len() {
                            assert(r@[a] == r0[a]);
                        }
                    }
                    assert forall|b: int|
                        0 <= b < i0 + 1 && !views(builtin_names@).contains((#[trigger] entries@[b]).0@) implies exists|a: int|
                            0 <= a < r@.len() && (#[trigger] r@[a]).0@ == entries@[b].0@ by {
                        if b < i0 {
                            let a = choose|a: int| 0 <= a < r0.len() && (#[trigger] r0[a]).0@ == entries@[b].0@;
                            assert(r@[a] == r0[a]);
                        } else {
                            assert(r@[r0.len() as int].0@ == entries@[b].0@);
                        }
                    }
                }
            }
            i = i + 1;
        }
        proof {
            assert forall|k: Seq<char>|
                #[trigger] m.contains_key(k) && !views(builtin_names@).contains(k) implies exists|a: int|
                    0 <= a < r@.len() && (#[trigger] r@[a]).0@ == k by {
                let b = choose|b: int| 0 <= b < entries@.len() && (#[trigger] entries@[b]).0@ == k;
                assert(!views(builtin_names@).contains(entries@[b].0@));
            }
        }
        r
    }
}

/// Whether `name` is one of `names`.
fn contains_name(names: &Vec<String>, name: &String) -> (r: bool)
    ensures
        r == views(names@).contains(name@),
{
    crate::text::contains_string(names, name)
}

/// Copies agree on being modules.
proof fn lemma_same_value_module(a: Value, b: Value)
    requires
        same_value(a, b),
    ensures
        is_module_value(a) == is_module_value(b),
{
}

impl Default for Environment {
    /// The root scope.
    fn default() -> (e: Self)
        ensures
            e.layers().len() == 1,
            empty_layer(e.layers()[0], false),
    {
        Environment::new()
    }
}

/// Switches for tracing module resolution.
#[derive(Debug, Clone)]
pub struct ModuleDebugConfig {
    pub enable_resolution_tracing: bool,
    pub log_search_paths: bool,
    pub show_resolution_timing: bool,
    pub verbose_error_messages: bool,
}

impl ModuleDebugConfig {
    /// The standard switches: search paths logged and verbose messages on,
    /// timing off, resolution tracing as given (it follows whether the
    /// debugging variable is set in the process environment).
    pub fn new(enable_resolution_tracing: bool) -> (c: Self)
        ensures
            c.enable_resolution_tracing == enable_resolution_tracing,
            c.log_search_paths,
            !c.show_resolution_timing,
            c.verbose_error_messages,
    {
        ModuleDebugConfig {
            enable_resolution_tracing,
            log_search_paths: true,
            show_resolution_timing: false,
            verbose_error_messages: true,
        }
    }
}


/// A scope opened inside another reads every name as its parent does
/// until something is defined in it.
pub proof fn law_child_sees_parent(child: Seq<Layer>, parent: Seq<Layer>, k: Seq<char>)
    requires
        child.len() == parent.len() + 1,
        empty_layer(child[0], true),
        child.drop_first() == parent,
    ensures
        scope_lookup(child, k) == scope_lookup(parent, k),
{
    assert(last_index(child[0].locals, k) is None);
    assert(!child[0].bindings.contains_key(k));
}

/// After `define(name, value)`, reading `name` gives a copy of `value`, and
/// every other name reads as before (up to copies).
pub proof fn law_define_then_get(
    before: Seq<Layer>,
    after: Seq<Layer>,
    name: String,
    value: Value,
    k: Seq<char>,
    got: Option<Value>,
)
    requires
        before.len() > 0,
        same_layers(after, define_spec(before, name, value)),
        opt_same(scope_lookup(after, k), got),
    ensures
        k == name@ ==> (got matches Some(g) && same_value(value, g)),
        k != name@ ==> opt_same(scope_lookup(before, k), got),
{
    lemma_define_spec(before, name, value, k);
    lemma_same_layers_lookup(after, define_spec(before, name, value), k);
    if let Some(a) = scope_lookup(after, k) {
        let d = scope_lookup(define_spec(before, name, value), k)->0;
        lemma_same_value_sym(a, d);
        lemma_same_value_trans(d, a, got->0);
    }
}

/// An assignment to a bound name succeeds; reading the name afterwards
/// gives a copy of the value, and every other name reads as before (up to
/// copies).
pub proof fn law_set_then_get(
    before: Seq<Layer>,
    after: Seq<Layer>,
    name: Seq<char>,
    value: Value,
    k: Seq<char>,
    got: Option<Value>,
)
    requires
        assign_spec(before, name, value) is Some,
        same_layers(after, assign_spec(before, name, value)->0),
        opt_same(scope_lookup(after, k), got),
    ensures
        scope_lookup(before, name) is Some,
        k == name ==> (got matches Some(g) && same_value(value, g)),
        k != name ==> opt_same(scope_lookup(before, k), got),
{
    let t = assign_spec(before, name, value)->0;
    lemma_assign_spec(before, name, value, k);
    lemma_same_layers_lookup(after, t, k);
    if let Some(a) = scope_lookup(after, k) {
        let d = scope_lookup(t, k)->0;
        lemma_same_value_sym(a, d);
        lemma_same_value_trans(d, a, got->0);
    }
}

} // verus!
