//! Module dependency tracking: which module imports which, whether one
//! reaches another, and where the import graph has cycles.

use vstd::prelude::*;
use crate::string_map::{index_of_key, lemma_index_of_key, listed, lookup, StringMap};
use crate::text::{contains_string, owned, str_eq, views};

verus! {

/// The modules `n` depends on directly.
pub open spec fn succs(g: StringMap<Vec<String>>, n: Seq<char>) -> Seq<Seq<char>> {
    listed(g, n)
}

/// Whether `p` is a walk along dependency edges.
pub open spec fn is_path(g: StringMap<Vec<String>>, p: Seq<Seq<char>>) -> bool {
    p.len() >= 1 && forall|i: int| 0 <= i < p.len() - 1 ==> succs(g, #[trigger] p[i]).contains(p[i + 1])
}

/// Whether `b` can be reached from `a` by following dependencies (every
/// module reaches itself).
pub open spec fn reaches(g: StringMap<Vec<String>>, a: Seq<char>, b: Seq<char>) -> bool {
    exists|p: Seq<Seq<char>>| is_path(g, p) && p[0] == a && p.last() == b
}

/// Every name listed in the entries' lists, in order.
pub open spec fn all_listed(entries: Seq<(String, Vec<String>)>) -> Seq<Seq<char>>
    decreases entries.len(),
{
    if entries.len() == 0 {
        seq![]
    } else {
        all_listed(entries.drop_last()) + views(entries.last().1@)
    }
}

proof fn lemma_all_listed_contains(entries: Seq<(String, Vec<String>)>, i: int, x: Seq<char>)
    requires
        0 <= i < entries.len(),
        views(entries[i].1@).contains(x),
    ensures
        all_listed(entries).contains(x),
    decreases entries.len(),
{
    let last = entries.len() - 1;
    if i == last {
        let k = choose|k: int| 0 <= k < views(entries[i].1@).len() && views(entries[i].1@)[k] == x;
        assert((all_listed(entries.drop_last()) + views(entries.last().1@))[all_listed(entries.drop_last()).len() + k] == x);
    } else {
        assert(entries.drop_last()[i] == entries[i]);
        lemma_all_listed_contains(entries.drop_last(), i, x);
        let k = choose|k: int| 0 <= k < all_listed(entries.drop_last()).len() && all_listed(entries.drop_last())[k] == x;
        assert((all_listed(entries.drop_last()) + views(entries.last().1@))[k] == x);
    }
}

proof fn lemma_succ_listed(g: StringMap<Vec<String>>, n: Seq<char>, x: Seq<char>)
    requires
        succs(g, n).contains(x),
    ensures
        all_listed(g.entries()).contains(x),
{
    lemma_index_of_key(g.entries(), n);
    let i = index_of_key(g.entries(), n).unwrap();
    lemma_all_listed_contains(g.entries(), i, x);
}

/// A direct dependency is one of the graph's names.
pub proof fn lemma_succ_in_graph(g: StringMap<Vec<String>>, n: Seq<char>, x: Seq<char>)
    requires
        succs(g, n).contains(x),
    ensures
        graph_names(g).contains(x),
{
    lemma_succ_listed(g, n, x);
    let k = choose|k: int| 0 <= k < all_listed(g.entries()).len() && all_listed(g.entries())[k] == x;
    assert((g.spec_keys() + all_listed(g.entries()))[g.spec_keys().len() + k] == x);
}

/// The lists of a prefix of the entries hold no more names than all of them.
pub proof fn lemma_all_listed_prefix(entries: Seq<(String, Vec<String>)>, k: int)
    requires
        0 <= k <= entries.len(),
    ensures
        all_listed(entries.take(k)).len() <= all_listed(entries).len(),
    decreases entries.len() - k,
{
    if k < entries.len() {
        let t = entries.take(k + 1);
        assert(t.drop_last() =~= entries.take(k));
        lemma_all_listed_prefix(entries, k + 1);
    } else {
        assert(entries.take(k) =~= entries);
    }
}

/// Extending a walk by one edge.
pub proof fn lemma_reach_step(g: StringMap<Vec<String>>, a: Seq<char>, n: Seq<char>, s: Seq<char>)
    requires
        reaches(g, a, n),
        succs(g, n).contains(s),
    ensures
        reaches(g, a, s),
{
    let p = choose|p: Seq<Seq<char>>| is_path(g, p) && p[0] == a && p.last() == n;
    let q = p.push(s);
    assert forall|i: int| 0 <= i < q.len() - 1 implies succs(g, #[trigger] q[i]).contains(q[i + 1]) by {
        if i < p.len() - 1 {
            assert(q[i] == p[i] && q[i + 1] == p[i + 1]);
        } else {
            assert(q[i] == n);
        }
    }
    assert(is_path(g, q) && q[0] == a && q.last() == s);
}

/// Every module reaches itself.
pub proof fn lemma_reach_self(g: StringMap<Vec<String>>, a: Seq<char>)
    ensures
        reaches(g, a, a),
{
    let p = seq![a];
    assert(is_path(g, p) && p[0] == a && p.last() == a);
}

/// A set of modules closed under dependencies holds every module reached
/// from one of its members.
pub(crate) proof fn lemma_closed_holds_path(g: StringMap<Vec<String>>, s: Set<Seq<char>>, p: Seq<Seq<char>>)
    requires
        is_path(g, p),
        s.contains(p[0]),
        forall|n: Seq<char>, x: Seq<char>| s.contains(n) && succs(g, n).contains(x) ==> s.contains(x),
    ensures
        s.contains(p.last()),
    decreases p.len(),
{
    if p.len() > 1 {
        let q = p.drop_last();
        assert forall|i: int| 0 <= i < q.len() - 1 implies succs(g, #[trigger] q[i]).contains(q[i + 1]) by {
            assert(q[i] == p[i] && q[i + 1] == p[i + 1]);
        }
        lemma_closed_holds_path(g, s, q);
        assert(succs(g, p[p.len() - 2]).contains(p[p.len() - 1]));
    }
}

/// Module dependency tracking: for each module, the modules it imports and
/// the modules that import it, plus bookkeeping for smart invalidation.
pub struct ModuleDependencyTracker {
    /// module -> its dependencies
    pub dependencies: StringMap<Vec<String>>,
    /// module -> modules that depend on it
    pub dependents: StringMap<Vec<String>>,
    /// module -> when it was last compiled (milliseconds since the epoch)
    pub dependency_timestamps: StringMap<u64>,
    /// module -> content hash
    pub dependency_hashes: StringMap<String>,
    /// modules pending invalidation
    pub invalidation_queue: Vec<String>,
    /// hash of the entire dependency graph
    pub dependency_graph_hash: String,
}

/// Whether every stored list has an entry: no module is recorded with an
/// empty list.
pub open spec fn no_empty_lists(m: StringMap<Vec<String>>) -> bool {
    forall|k: Seq<char>| #[trigger] m.spec_get(k) is Some ==> listed(m, k).len() > 0
}

/// Whether the dependents are exactly the inverse of the dependencies:
/// `d` is listed under `m` as often as `m` is listed under `d`, and no
/// stored list is empty.
pub open spec fn tracker_wf(t: ModuleDependencyTracker) -> bool {
    &&& forall|m: Seq<char>, d: Seq<char>|
        #[trigger] succs(t.dependencies, m).to_multiset().count(d) == #[trigger] listed(t.dependents, d).to_multiset().count(m)
    &&& no_empty_lists(t.dependencies)
    &&& no_empty_lists(t.dependents)
}

impl ModuleDependencyTracker {
    /// An empty tracker.
    pub fn new() -> (t: Self)
        ensures
            t.dependencies.entries().len() == 0,
            t.dependents.entries().len() == 0,
            t.dependency_timestamps.entries().len() == 0,
            t.dependency_hashes.entries().len() == 0,
            t.invalidation_queue@.len() == 0,
            t.dependency_graph_hash@.len() == 0,
            tracker_wf(t),
    {
        let t = ModuleDependencyTracker {
            dependencies: StringMap::new(),
            dependents: StringMap::new(),
            dependency_timestamps: StringMap::new(),
            dependency_hashes: StringMap::new(),
            invalidation_queue: Vec::new(),
            dependency_graph_hash: String::new(),
        };
        proof {
            assert forall|m: Seq<char>, d: Seq<char>|
                #[trigger] succs(t.dependencies, m).to_multiset().count(d) == #[trigger] listed(
                    t.dependents,
                    d,
                ).to_multiset().count(m) by {
                assert(t.dependencies.entries().len() == 0);
                assert(lookup(t.dependencies.entries(), m) is None);
                assert(lookup(t.dependents.entries(), d) is None);
                assert(succs(t.dependencies, m) =~= Seq::<Seq<char>>::empty());
                assert(listed(t.dependents, d) =~= Seq::<Seq<char>>::empty());
                vstd::seq_lib::to_multiset_len(Seq::<Seq<char>>::empty());
            }
        }
        t
    }

    /// Records that `module` depends on `dependency`: the edge is appended
    /// to `module`'s dependencies and `module` to `dependency`'s dependents.
    pub fn add_dependency(&mut self, module: String, dependency: String)
        ensures
            succs(final(self).dependencies, module@) == succs(old(self).dependencies, module@).push(dependency@),
            forall|k: Seq<char>| k != module@ ==> #[trigger] succs(final(self).dependencies, k) == succs(
                old(self).dependencies,
                k,
            ),
            listed(final(self).dependents, dependency@) == listed(old(self).dependents, dependency@).push(module@),
            forall|k: Seq<char>| k != dependency@ ==> #[trigger] listed(final(self).dependents, k) == listed(
                old(self).dependents,
                k,
            ),
            final(self).dependency_timestamps == old(self).dependency_timestamps,
            final(self).dependency_hashes == old(self).dependency_hashes,
            final(self).invalidation_queue == old(self).invalidation_queue,
            final(self).dependency_graph_hash == old(self).dependency_graph_hash,
            tracker_wf(*old(self)) ==> tracker_wf(*final(self)),
    {
        let m2 = module.clone();
        let d2 = dependency.clone();
        let ghost od = self.dependencies;
        let ghost on = self.dependents;
        self.dependencies.push_to(module, d2);
        self.dependents.push_to(dependency, m2);
        proof {
            if tracker_wf(*old(self)) {
                let mv = m2@;
                let dv = d2@;
                assert forall|m: Seq<char>, d: Seq<char>|
                    #[trigger] succs(self.dependencies, m).to_multiset().count(d) == #[trigger] listed(
                        self.dependents,
                        d,
                    ).to_multiset().count(m) by {
                    assert(succs(od, m).to_multiset().count(d) == listed(on, d).to_multiset().count(m));
                    if m == mv {
                        vstd::seq_lib::to_multiset_build(succs(od, m), dv);
                    }
                    if d == dv {
                        vstd::seq_lib::to_multiset_build(listed(on, d), mv);
                    }
                }
                assert forall|k: Seq<char>| #[trigger] self.dependencies.spec_get(k) is Some implies listed(
                    self.dependencies,
                    k,
                ).len() > 0 by {
                    if k != mv {
                        assert(od.spec_get(k) is Some);
                    }
                }
                assert forall|k: Seq<char>| #[trigger] self.dependents.spec_get(k) is Some implies listed(
                    self.dependents,
                    k,
                ).len() > 0 by {
                    if k != dv {
                        assert(on.spec_get(k) is Some);
                    }
                }
            }
        }
    }

    /// Whether adding the edge `module -> dependency` would close a cycle:
    /// true exactly when `dependency` already reaches `module`.
    pub fn check_circular_dependency(&self, module: &str, dependency: &str) -> (r: bool)
        ensures
            r == reaches(self.dependencies, dependency@, module@),
    {
        self.has_path(dependency, module)
    }

    /// Whether `to` can be reached from `from` along dependencies.
    pub fn has_path(&self, from: &str, to: &str) -> (r: bool)
        ensures
            r == reaches(self.dependencies, from@, to@),
    {
        let g = &self.dependencies;
        if str_eq(from, to) {
            proof {
                lemma_reach_self(*g, from@);
            }
            return true;
        }
        let start = owned(from);
        let target = owned(to);
        let ghost univ: Seq<Seq<char>> = seq![from@] + all_listed(g.entries());
        let ghost bound: int = univ.to_set().len() as int;
        let mut visited: Vec<String> = Vec::new();
        visited.push(start.clone());
        let mut frontier: Vec<String> = Vec::new();
        frontier.push(start);
        proof {
            vstd::seq_lib::seq_to_set_is_finite(univ);
            assert(univ[0] == from@);
            assert(univ.to_set().contains(from@));
            assert(views(visited@) =~= seq![from@]);
            assert(views(frontier@) =~= seq![from@]);
            lemma_reach_self(*g, from@);
        }
        while frontier.len() > 0
            invariant
                univ == seq![from@] + all_listed(g.entries()),
                *g == self.dependencies,
                bound == univ.to_set().len(),
                univ.to_set().finite(),
                target@ == to@,
                from@ != to@,
                views(visited@).no_duplicates(),
                forall|n: Seq<char>| views(visited@).contains(n) ==> univ.to_set().contains(n),
                views(visited@).contains(from@),
                !views(visited@).contains(to@),
                forall|n: Seq<char>| views(frontier@).contains(n) ==> views(visited@).contains(n),
                forall|n: Seq<char>| views(visited@).contains(n) ==> reaches(*g, from@, n),
                forall|n: Seq<char>, x: Seq<char>|
                    views(visited@).contains(n) && !views(frontier@).contains(n) && succs(*g, n).contains(x)
                        ==> views(visited@).contains(x),
            decreases bound - visited@.len(), frontier@.len(),
        {
            proof {
                views(visited@).unique_seq_to_set();
                vstd::set_lib::lemma_len_subset(views(visited@).to_set(), univ.to_set());
            }
            let ghost old_visited = views(visited@);
            let ghost old_frontier = views(frontier@);
            let n = frontier.pop().unwrap();
            proof {
                assert(old_frontier =~= views(frontier@).push(n@));
                assert(old_frontier[old_frontier.len() - 1] == n@);
                assert(old_frontier.contains(n@));
                assert forall|q: Seq<char>| views(frontier@).contains(q) implies old_frontier.contains(q) by {
                    let k = choose|k: int| 0 <= k < views(frontier@).len() && views(frontier@)[k] == q;
                    assert(old_frontier[k] == q);
                }
            }
            match g.get(n.as_str()) {
                Some(deps) => {
                    let mut j: usize = 0;
                    while j < deps.len()
                        invariant
                            univ == seq![from@] + all_listed(g.entries()),
                            *g == self.dependencies,
                            bound == univ.to_set().len(),
                            univ.to_set().finite(),
                            target@ == to@,
                            from@ != to@,
                            g.spec_get(n@) == Some(*deps),
                            succs(*g, n@) == views(deps@),
                            j <= deps@.len(),
                            views(visited@).no_duplicates(),
                            forall|q: Seq<char>| views(visited@).contains(q) ==> univ.to_set().contains(q),
                            views(visited@).contains(from@),
                            views(visited@).contains(n@),
                            !views(visited@).contains(to@),
                            visited@.len() >= old_visited.len(),
                            frontier@.len() + old_visited.len() + 1 == old_frontier.len() + visited@.len(),
                            forall|q: Seq<char>| views(frontier@).contains(q) ==> views(visited@).contains(q),
                            forall|q: Seq<char>| views(visited@).contains(q) ==> reaches(*g, from@, q),
                            forall|q: Seq<char>| old_visited.contains(q) ==> views(visited@).contains(q),
                            forall|k: int| 0 <= k < j ==> views(visited@).contains(#[trigger] views(deps@)[k]),
                            forall|q: Seq<char>, x: Seq<char>|
                                views(visited@).contains(q) && q != n@ && !views(frontier@).contains(q)
                                    && succs(*g, q).contains(x) ==> views(visited@).contains(x),
                        decreases deps@.len() - j,
                    {
                        let d = &deps[j];
                        proof {
                            assert(views(deps@)[j as int] == d@);
                            assert(succs(*g, n@).contains(d@));
                            lemma_reach_step(*g, from@, n@, d@);
                            assert(reaches(*g, from@, d@));
                        }
                        if *d == target {
                            assert(d@ == to@);
                            assert(reaches(*g, from@, to@));
                            assert(*g == self.dependencies);
                            return true;
                        }
                        if !contains_string(&visited, d) {
                            let ghost v0 = views(visited@);
                            let ghost f0 = views(frontier@);
                            visited.push(d.clone());
                            frontier.push(d.clone());
                            proof {
                                assert(views(visited@) =~= v0.push(d@));
                                assert(views(frontier@) =~= f0.push(d@));
                                lemma_succ_listed(*g, n@, d@);
                                let k = choose|k: int| 0 <= k < all_listed(g.entries()).len() && all_listed(g.entries())[k] == d@;
                                assert(univ[k + 1] == d@);
                                assert forall|q: Seq<char>| views(visited@).contains(q) implies v0.contains(q) || q == d@ by {
                                    let k = choose|k: int| 0 <= k < views(visited@).len() && views(visited@)[k] == q;
                                    if k < v0.len() {
                                        assert(v0[k] == q);
                                    }
                                }
                                assert forall|q: Seq<char>| v0.contains(q) implies views(visited@).contains(q) by {
                                    let k = choose|k: int| 0 <= k < v0.len() && v0[k] == q;
                                    assert(views(visited@)[k] == q);
                                }
                                assert forall|q: Seq<char>| views(frontier@).contains(q) implies f0.contains(q) || q == d@ by {
                                    let k = choose|k: int| 0 <= k < views(frontier@).len() && views(frontier@)[k] == q;
                                    if k < f0.len() {
                                        assert(f0[k] == q);
                                    }
                                }
                                assert forall|q: Seq<char>| f0.contains(q) implies views(frontier@).contains(q) by {
                                    let k = choose|k: int| 0 <= k < f0.len() && f0[k] == q;
                                    assert(views(frontier@)[k] == q);
                                }
                                assert(views(visited@)[v0.len() as int] == d@);
                                assert(views(frontier@)[f0.len() as int] == d@);
                                assert forall|q: Seq<char>| views(frontier@).contains(q) implies views(visited@).contains(q) by {
                                    if q != d@ {
                                        assert(f0.contains(q));
                                        assert(v0.contains(q));
                                    }
                                }
                            }
                        }
                        j = j + 1;
                    }
                },
                None => {
                    proof {
                        assert(succs(*g, n@) =~= Seq::<Seq<char>>::empty());
                    }
                },
            }
            proof {
                views(visited@).unique_seq_to_set();
                vstd::set_lib::lemma_len_subset(views(visited@).to_set(), univ.to_set());
            }
        }
        proof {
            let s = views(visited@).to_set();
            assert forall|m: Seq<char>, x: Seq<char>| s.contains(m) && succs(*g, m).contains(x) implies s.contains(x) by {
                assert(views(visited@).contains(m));
            }
            if reaches(*g, from@, to@) {
                let p = choose|p: Seq<Seq<char>>| is_path(*g, p) && p[0] == from@ && p.last() == to@;
                lemma_closed_holds_path(*g, s, p);
            }
        }
        false
    }
}

/// Every module reachable from `from` (itself included), each once.
pub fn reachable_from(g: &StringMap<Vec<String>>, from: &str) -> (r: Vec<String>)
    ensures
        views(r@).no_duplicates(),
        forall|n: Seq<char>| #[trigger] views(r@).contains(n) <==> reaches(*g, from@, n),
{
    let start = owned(from);
    let ghost univ: Seq<Seq<char>> = seq![from@] + all_listed(g.entries());
    let ghost bound: int = univ.to_set().len() as int;
    let mut visited: Vec<String> = Vec::new();
    visited.push(start.clone());
    let mut frontier: Vec<String> = Vec::new();
    frontier.push(start);
    proof {
        vstd::seq_lib::seq_to_set_is_finite(univ);
        assert(univ[0] == from@);
        assert(univ.to_set().contains(from@));
        assert(views(visited@) =~= seq![from@]);
        assert(views(frontier@) =~= seq![from@]);
        lemma_reach_self(*g, from@);
    }
    while frontier.len() > 0
        invariant
            univ == seq![from@] + all_listed(g.entries()),
            bound == univ.to_set().len(),
            univ.to_set().finite(),
            views(visited@).no_duplicates(),
            forall|n: Seq<char>| views(visited@).contains(n) ==> univ.to_set().contains(n),
            views(visited@).contains(from@),
            forall|n: Seq<char>| views(frontier@).contains(n) ==> views(visited@).contains(n),
            forall|n: Seq<char>| views(visited@).contains(n) ==> reaches(*g, from@, n),
            forall|n: Seq<char>, x: Seq<char>|
                views(visited@).contains(n) && !views(frontier@).contains(n) && succs(*g, n).contains(x)
                    ==> views(visited@).contains(x),
        decreases bound - visited@.len(), frontier@.len(),
    {
        proof {
            views(visited@).unique_seq_to_set();
            vstd::set_lib::lemma_len_subset(views(visited@).to_set(), univ.to_set());
        }
        let ghost old_visited = views(visited@);
        let ghost old_frontier = views(frontier@);
        let n = frontier.pop().unwrap();
        proof {
            assert(old_frontier =~= views(frontier@).push(n@));
            assert(old_frontier[old_frontier.len() - 1] == n@);
            assert(old_frontier.contains(n@));
            assert forall|q: Seq<char>| views(frontier@).contains(q) implies old_frontier.contains(q) by {
                let k = choose|k: int| 0 <= k < views(frontier@).len() && views(frontier@)[k] == q;
                assert(old_frontier[k] == q);
            }
        }
        match g.get(n.as_str()) {
            Some(deps) => {
                let mut j: usize = 0;
                while j < deps.len()
                    invariant
                        univ == seq![from@] + all_listed(g.entries()),
                                    bound == univ.to_set().len(),
                        univ.to_set().finite(),
                        g.spec_get(n@) == Some(*deps),
                        succs(*g, n@) == views(deps@),
                        j <= deps@.len(),
                        views(visited@).no_duplicates(),
                        forall|q: Seq<char>| views(visited@).contains(q) ==> univ.to_set().contains(q),
                        views(visited@).contains(from@),
                        views(visited@).contains(n@),
                                    visited@.len() >= old_visited.len(),
                        frontier@.len() + old_visited.len() + 1 == old_frontier.len() + visited@.len(),
                        forall|q: Seq<char>| views(frontier@).contains(q) ==> views(visited@).contains(q),
                        forall|q: Seq<char>| views(visited@).contains(q) ==> reaches(*g, from@, q),
                        forall|q: Seq<char>| old_visited.contains(q) ==> views(visited@).contains(q),
                        forall|k: int| 0 <= k < j ==> views(visited@).contains(#[trigger] views(deps@)[k]),
                        forall|q: Seq<char>, x: Seq<char>|
                            views(visited@).contains(q) && q != n@ && !views(frontier@).contains(q)
                                && succs(*g, q).contains(x) ==> views(visited@).contains(x),
                    decreases deps@.len() - j,
                {
                    let d = &deps[j];
                    proof {
                        assert(views(deps@)[j as int] == d@);
                        assert(succs(*g, n@).contains(d@));
                        lemma_reach_step(*g, from@, n@, d@);
                        assert(reaches(*g, from@, d@));
                    }
                    if !contains_string(&visited, d) {
                        let ghost v0 = views(visited@);
                        let ghost f0 = views(frontier@);
                        visited.push(d.clone());
                        frontier.push(d.clone());
                        proof {
                            assert(views(visited@) =~= v0.push(d@));
                            assert(views(frontier@) =~= f0.push(d@));
                            lemma_succ_listed(*g, n@, d@);
                            let k = choose|k: int| 0 <= k < all_listed(g.entries()).len() && all_listed(g.entries())[k] == d@;
                            assert(univ[k + 1] == d@);
                            assert forall|q: Seq<char>| views(visited@).contains(q) implies v0.contains(q) || q == d@ by {
                                let k = choose|k: int| 0 <= k < views(visited@).len() && views(visited@)[k] == q;
                                if k < v0.len() {
                                    assert(v0[k] == q);
                                }
                            }
                            assert forall|q: Seq<char>| v0.contains(q) implies views(visited@).contains(q) by {
                                let k = choose|k: int| 0 <= k < v0.len() && v0[k] == q;
                                assert(views(visited@)[k] == q);
                            }
                            assert forall|q: Seq<char>| views(frontier@).contains(q) implies f0.contains(q) || q == d@ by {
                                let k = choose|k: int| 0 <= k < views(frontier@).len() && views(frontier@)[k] == q;
                                if k < f0.len() {
                                    assert(f0[k] == q);
                                }
                            }
                            assert forall|q: Seq<char>| f0.contains(q) implies views(frontier@).contains(q) by {
                                let k = choose|k: int| 0 <= k < f0.len() && f0[k] == q;
                                assert(views(frontier@)[k] == q);
                            }
                            assert(views(visited@)[v0.len() as int] == d@);
                            assert(views(frontier@)[f0.len() as int] == d@);
                            assert forall|q: Seq<char>| views(frontier@).contains(q) implies views(visited@).contains(q) by {
                                if q != d@ {
                                    assert(f0.contains(q));
                                    assert(v0.contains(q));
                                }
                            }
                        }
                    }
                    j = j + 1;
                }
            },
            None => {
                proof {
                    assert(succs(*g, n@) =~= Seq::<Seq<char>>::empty());
                }
            },
        }
        proof {
            views(visited@).unique_seq_to_set();
            vstd::set_lib::lemma_len_subset(views(visited@).to_set(), univ.to_set());
        }
    }
    proof {
        let s = views(visited@).to_set();
        assert forall|m: Seq<char>, x: Seq<char>| s.contains(m) && succs(*g, m).contains(x) implies s.contains(x) by {
            assert(views(visited@).contains(m));
        }
        assert forall|n: Seq<char>| #[trigger] views(visited@).contains(n) <==> reaches(*g, from@, n) by {
            if reaches(*g, from@, n) {
                let p = choose|p: Seq<Seq<char>>| is_path(*g, p) && p[0] == from@ && p.last() == n;
                lemma_closed_holds_path(*g, s, p);
            }
        }
    }
    visited
}


/// The law of cycle detection: adding the edge `module -> dependency`
/// makes `dependency` reach `module` exactly when it already did, so
/// `check_circular_dependency` before the edge is added tells whether the
/// edge closes a cycle.
pub proof fn lemma_new_edge_closes_cycle_iff_reached(
    before: ModuleDependencyTracker,
    after: ModuleDependencyTracker,
    module: Seq<char>,
    dependency: Seq<char>,
)
    requires
        succs(after.dependencies, module) == succs(before.dependencies, module).push(dependency),
        forall|k: Seq<char>| k != module ==> #[trigger] succs(after.dependencies, k) == succs(before.dependencies, k),
    ensures
        reaches(after.dependencies, dependency, module) == reaches(before.dependencies, dependency, module),
        reaches(after.dependencies, module, dependency),
{
    let g0 = before.dependencies;
    let g1 = after.dependencies;
    assert(succs(g1, module)[succs(g0, module).len() as int] == dependency);
    let e = seq![module, dependency];
    assert(is_path(g1, e) && e[0] == module && e.last() == dependency);
    // every edge of the old graph is an edge of the new one
    assert forall|a: Seq<char>, x: Seq<char>| succs(g0, a).contains(x) implies succs(g1, a).contains(x) by {
        if a == module {
            let k = choose|k: int| 0 <= k < succs(g0, a).len() && succs(g0, a)[k] == x;
            assert(succs(g1, a)[k] == x);
        }
    }
    if reaches(g0, dependency, module) {
        let p = choose|p: Seq<Seq<char>>| is_path(g0, p) && p[0] == dependency && p.last() == module;
        assert forall|i: int| 0 <= i < p.len() - 1 implies succs(g1, #[trigger] p[i]).contains(p[i + 1]) by {
            assert(succs(g0, p[i]).contains(p[i + 1]));
        }
        assert(is_path(g1, p));
    }
    if reaches(g1, dependency, module) {
        let p = choose|p: Seq<Seq<char>>| is_path(g1, p) && p[0] == dependency && p.last() == module;
        lemma_first_visit_path(g0, g1, module, dependency, p);
    }
}

/// A new-graph walk that first arrives at `module` uses no edge leaving
/// `module`, so its prefix up to that point is an old-graph walk.
proof fn lemma_first_visit_path(
    g0: StringMap<Vec<String>>,
    g1: StringMap<Vec<String>>,
    module: Seq<char>,
    dependency: Seq<char>,
    p: Seq<Seq<char>>,
)
    requires
        is_path(g1, p),
        p.last() == module,
        succs(g1, module) == succs(g0, module).push(dependency),
        forall|k: Seq<char>| k != module ==> #[trigger] succs(g1, k) == succs(g0, k),
    ensures
        reaches(g0, p[0], module),
    decreases p.len(),
{
    if p.len() == 1 {
        assert(is_path(g0, p));
    } else {
        // find the first visit of `module`
        if exists|i: int| 0 <= i < p.len() - 1 && p[i] == module {
            let i = choose|i: int| 0 <= i < p.len() - 1 && p[i] == module;
            let q = p.take(i + 1);
            assert forall|k: int| 0 <= k < q.len() - 1 implies succs(g1, #[trigger] q[k]).contains(q[k + 1]) by {
                assert(q[k] == p[k] && q[k + 1] == p[k + 1]);
            }
            assert(is_path(g1, q));
            lemma_first_visit_path(g0, g1, module, dependency, q);
        } else {
            assert forall|k: int| 0 <= k < p.len() - 1 implies succs(g0, #[trigger] p[k]).contains(p[k + 1]) by {
                assert(p[k] != module);
                assert(succs(g1, p[k]).contains(p[k + 1]));
            }
            assert(is_path(g0, p));
        }
    }
}


/// Whether `c` is a dependency cycle: a walk of at least one edge that
/// ends where it starts.
pub open spec fn is_cycle(g: StringMap<Vec<String>>, c: Seq<Seq<char>>) -> bool {
    c.len() >= 2 && is_path(g, c) && c[0] == c.last()
}

/// Every module named in the graph, as a key or as a dependency.
pub open spec fn graph_names(g: StringMap<Vec<String>>) -> Set<Seq<char>> {
    (g.spec_keys() + all_listed(g.entries())).to_set()
}

/// Whether the list of walks `ps` holds only cycles.
pub open spec fn all_cycles(g: StringMap<Vec<String>>, ps: Seq<Vec<String>>) -> bool {
    forall|i: int| 0 <= i < ps.len() ==> is_cycle(g, views(#[trigger] ps[i]@)) && views(ps[i]@).drop_last().no_duplicates()
}

/// Whether the list of walks holds the loop `[n, n]`.
pub open spec fn has_self_loop(cs: Seq<Vec<String>>, n: Seq<char>) -> bool {
    exists|i: int| 0 <= i < cs.len() && views(#[trigger] cs[i]@) == seq![n, n]
}

/// Every ranked module with an edge to itself has its loop listed.
pub open spec fn loops_listed(g: StringMap<Vec<String>>, rank: Map<Seq<char>, int>, cs: Seq<Vec<String>>) -> bool {
    forall|n: Seq<char>| #[trigger] rank.dom().contains(n) && succs(g, n).contains(n) ==> has_self_loop(cs, n)
}

/// Whether `cs2` keeps every walk of `cs` in its place.
pub open spec fn extends(cs: Seq<Vec<String>>, cs2: Seq<Vec<String>>) -> bool {
    cs.len() <= cs2.len() && forall|i: int| 0 <= i < cs.len() ==> #[trigger] cs2[i] == cs[i]
}

proof fn lemma_self_loop_kept(cs: Seq<Vec<String>>, cs2: Seq<Vec<String>>, n: Seq<char>)
    requires
        has_self_loop(cs, n),
        extends(cs, cs2),
    ensures
        has_self_loop(cs2, n),
{
    let i = choose|i: int| 0 <= i < cs.len() && views(#[trigger] cs[i]@) == seq![n, n];
    assert(cs2[i] == cs[i]);
}

proof fn lemma_loops_kept(g: StringMap<Vec<String>>, rank: Map<Seq<char>, int>, cs: Seq<Vec<String>>, cs2: Seq<Vec<String>>)
    requires
        loops_listed(g, rank, cs),
        extends(cs, cs2),
    ensures
        loops_listed(g, rank, cs2),
{
    assert forall|n: Seq<char>| #[trigger] rank.dom().contains(n) && succs(g, n).contains(n) implies has_self_loop(cs2, n) by {
        lemma_self_loop_kept(cs, cs2, n);
    }
}

/// Whether module `u` appears in one of the listed walks.
pub open spec fn on_listed(cs: Seq<Vec<String>>, u: Seq<char>) -> bool {
    exists|i: int, j: int| 0 <= i < cs.len() && 0 <= j < cs[i]@.len() && (#[trigger] cs[i]@[j])@ == u
}

/// Every dependency edge out of a ranked module either leads to a module
/// ranked below it, or starts at a module that appears in a listed cycle.
pub open spec fn edges_settled(g: StringMap<Vec<String>>, rank: Map<Seq<char>, int>, cs: Seq<Vec<String>>) -> bool {
    forall|u: Seq<char>, v: Seq<char>|
        #![trigger rank.dom().contains(u), succs(g, u).contains(v)]
        rank.dom().contains(u) && succs(g, u).contains(v) ==> (rank.dom().contains(v) && rank[v] < rank[u])
            || on_listed(cs, u)
}

proof fn lemma_on_listed_kept(cs: Seq<Vec<String>>, cs2: Seq<Vec<String>>, u: Seq<char>)
    requires
        on_listed(cs, u),
        extends(cs, cs2),
    ensures
        on_listed(cs2, u),
{
    let (i, j) = choose|i: int, j: int| 0 <= i < cs.len() && 0 <= j < cs[i]@.len() && (#[trigger] cs[i]@[j])@ == u;
    assert(cs2[i] == cs[i]);
    assert(cs2[i]@[j]@ == u);
}

proof fn lemma_settled_kept(g: StringMap<Vec<String>>, rank: Map<Seq<char>, int>, cs: Seq<Vec<String>>, cs2: Seq<Vec<String>>)
    requires
        edges_settled(g, rank, cs),
        extends(cs, cs2),
    ensures
        edges_settled(g, rank, cs2),
{
    assert forall|u: Seq<char>, v: Seq<char>|
        #![trigger rank.dom().contains(u), succs(g, u).contains(v)]
        rank.dom().contains(u) && succs(g, u).contains(v) implies (rank.dom().contains(v) && rank[v] < rank[u])
        || on_listed(cs2, u) by {
        if on_listed(cs, u) {
            lemma_on_listed_kept(cs, cs2, u);
        }
    }
}

/// Along a walk through ranked modules none of which appears in a listed
/// cycle, ranks strictly fall.
proof fn lemma_settled_fall(g: StringMap<Vec<String>>, rank: Map<Seq<char>, int>, cs: Seq<Vec<String>>, p: Seq<Seq<char>>)
    requires
        is_path(g, p),
        edges_settled(g, rank, cs),
        rank.dom().contains(p[0]),
        forall|k: int| 0 <= k < p.len() ==> !on_listed(cs, #[trigger] p[k]),
    ensures
        rank.dom().contains(p.last()),
        rank[p.last()] <= rank[p[0]] - (p.len() - 1),
    decreases p.len(),
{
    if p.len() > 1 {
        let q = p.drop_last();
        assert forall|i: int| 0 <= i < q.len() - 1 implies succs(g, #[trigger] q[i]).contains(q[i + 1]) by {
            assert(q[i] == p[i] && q[i + 1] == p[i + 1]);
        }
        assert forall|k: int| 0 <= k < q.len() implies !on_listed(cs, #[trigger] q[k]) by {
            assert(q[k] == p[k]);
        }
        lemma_settled_fall(g, rank, cs, q);
        assert(succs(g, p[p.len() - 2]).contains(p[p.len() - 1]));
        assert(q.last() == p[p.len() - 2]);
        assert(!on_listed(cs, p[p.len() - 2]));
    }
}

/// The state the cycle search keeps while it explores.
pub open spec fn search_ok(
    g: StringMap<Vec<String>>,
    visited: Seq<String>,
    rec_stack: Seq<String>,
    current_path: Seq<String>,
) -> bool {
    &&& views(visited).no_duplicates()
    &&& forall|n: Seq<char>| views(visited).contains(n) ==> graph_names(g).contains(n)
    &&& views(rec_stack) == views(current_path)
    &&& views(current_path).no_duplicates()
    &&& (current_path.len() > 0 ==> is_path(g, views(current_path)))
    &&& forall|n: Seq<char>| views(current_path).contains(n) ==> views(visited).contains(n)
}

/// Whether the graph has a cycle.
pub open spec fn has_cycle(g: StringMap<Vec<String>>) -> bool {
    exists|c: Seq<Seq<char>>| is_cycle(g, c)
}

/// The finishing ranks of a depth-first search: every ranked module was
/// visited and has left the search path, every visited module is ranked
/// or still on the path, and every rank lies below `next`.
pub open spec fn ranks_ok(
    visited: Seq<Seq<char>>,
    stack: Seq<Seq<char>>,
    rank: Map<Seq<char>, int>,
    next: int,
) -> bool {
    &&& forall|n: Seq<char>| #[trigger] rank.dom().contains(n) ==> visited.contains(n) && !stack.contains(n)
        && rank[n] < next
    &&& forall|n: Seq<char>| #[trigger] visited.contains(n) ==> stack.contains(n) || rank.dom().contains(n)
}

/// Every dependency of a ranked module is ranked below it.
pub open spec fn ranks_descend(g: StringMap<Vec<String>>, rank: Map<Seq<char>, int>) -> bool {
    forall|n: Seq<char>, x: Seq<char>|
        #![trigger rank.dom().contains(n), succs(g, n).contains(x)]
        rank.dom().contains(n) && succs(g, n).contains(x) ==> rank.dom().contains(x) && rank[x] < rank[n]
}

/// Along a walk from a ranked module, ranks strictly fall.
proof fn lemma_ranks_fall(g: StringMap<Vec<String>>, rank: Map<Seq<char>, int>, p: Seq<Seq<char>>)
    requires
        is_path(g, p),
        ranks_descend(g, rank),
        rank.dom().contains(p[0]),
    ensures
        rank.dom().contains(p.last()),
        rank[p.last()] <= rank[p[0]] - (p.len() - 1),
    decreases p.len(),
{
    if p.len() > 1 {
        let q = p.drop_last();
        assert forall|i: int| 0 <= i < q.len() - 1 implies succs(g, #[trigger] q[i]).contains(q[i + 1]) by {
            assert(q[i] == p[i] && q[i + 1] == p[i + 1]);
        }
        lemma_ranks_fall(g, rank, q);
        assert(succs(g, p[p.len() - 2]).contains(p[p.len() - 1]));
        assert(q.last() == p[p.len() - 2]);
    }
}

/// A module with a dependency is a key of the graph.
proof fn lemma_succ_source_is_key(g: StringMap<Vec<String>>, n: Seq<char>, x: Seq<char>)
    requires
        succs(g, n).contains(x),
    ensures
        g.spec_keys().contains(n),
{
    crate::string_map::lemma_spec_keys(g, n);
}

proof fn lemma_slice_is_path(g: StringMap<Vec<String>>, p: Seq<Seq<char>>, start: int, d: Seq<char>)
    requires
        is_path(g, p),
        0 <= start < p.len(),
        succs(g, p.last()).contains(d),
        p[start] == d,
        p.no_duplicates(),
    ensures
        is_cycle(g, p.skip(start).push(d)),
        p.skip(start).push(d).drop_last().no_duplicates(),
{
    let c = p.skip(start).push(d);
    assert(c.drop_last() =~= p.skip(start));
    assert forall|i: int| 0 <= i < c.len() - 1 implies succs(g, #[trigger] c[i]).contains(c[i + 1]) by {
        if i < c.len() - 2 {
            assert(c[i] == p[start + i] && c[i + 1] == p[start + i + 1]);
        } else {
            assert(c[i] == p.last());
        }
    }
}

impl ModuleDependencyTracker {
    /// The cycles a depth-first search over the modules finds: a search
    /// starts from each not-yet-visited module in insertion order, and
    /// each edge back to a module on the current search path contributes
    /// the path from that module, closed by the edge. Every walk returned
    /// is a cycle of the graph whose modules are distinct until it closes;
    /// every cycle of the graph shares a module with a returned cycle, so
    /// each group of mutually dependent modules is reported; a module that
    /// depends on itself gives the loop `[m, m]`. One cycle is listed per
    /// edge back onto the search path, so not every elementary cycle is
    /// listed: with `A -> B`, `A -> C`, `B -> C`, `C -> A` the search
    /// lists `[A, B, C, A]` and not `[A, C, A]`.
    pub fn find_all_cycles(&self) -> (cycles: Vec<Vec<String>>)
        ensures
            all_cycles(self.dependencies, cycles@),
            cycles@.len() > 0 <==> has_cycle(self.dependencies),
            forall|n: Seq<char>| #[trigger] succs(self.dependencies, n).contains(n) ==> has_self_loop(cycles@, n),
            forall|c: Seq<Seq<char>>|
                #[trigger] is_cycle(self.dependencies, c) ==> exists|k: int| 0 <= k < c.len() && on_listed(cycles@, #[trigger] c[k]),
    {
        let mut cycles: Vec<Vec<String>> = Vec::new();
        let mut visited: Vec<String> = Vec::new();
        let mut rec_stack: Vec<String> = Vec::new();
        let mut current_path: Vec<String> = Vec::new();
        let n = self.dependencies.len();
        let mut i: usize = 0;
        let ghost mut rank: Map<Seq<char>, int> = Map::empty();
        let ghost mut next: int = 0;
        proof {
            assert(views(rec_stack@) =~= views(current_path@));
            assert(views(visited@) =~= Seq::<Seq<char>>::empty());
        }
        while i < n
            invariant
                n == self.dependencies.entries().len(),
                i <= n,
                search_ok(self.dependencies, visited@, rec_stack@, current_path@),
                current_path@.len() == 0,
                all_cycles(self.dependencies, cycles@),
                ranks_ok(views(visited@), views(rec_stack@), rank, next),
                cycles@.len() == 0 ==> ranks_descend(self.dependencies, rank),
                forall|k: int| 0 <= k < i ==> views(visited@).contains(#[trigger] self.dependencies.spec_keys()[k]),
                loops_listed(self.dependencies, rank, cycles@),
                edges_settled(self.dependencies, rank, cycles@),
            decreases n - i,
        {
            let module = self.dependencies.key_at(i);
            let ghost vb = views(visited@);
            proof {
                assert(self.dependencies.spec_keys()[i as int] == module@);
            }
            if !contains_string(&visited, module) {
                proof {
                    let ks = self.dependencies.spec_keys();
                    assert(ks[i as int] == module@);
                    assert((ks + all_listed(self.dependencies.entries()))[i as int] == module@);
                }
                let out = self.dfs_find_cycles(
                    module,
                    &mut visited,
                    &mut rec_stack,
                    &mut current_path,
                    &mut cycles,
                    Ghost(rank),
                    Ghost(next),
                );
                proof {
                    rank = out@.0;
                    next = out@.1;
                }
            }
            proof {
                assert forall|k: int| 0 <= k < i + 1 implies views(visited@).contains(
                    #[trigger] self.dependencies.spec_keys()[k],
                ) by {
                    if k < i {
                        assert(vb.contains(self.dependencies.spec_keys()[k]));
                    }
                }
            }
            i = i + 1;
        }
        proof {
            assert forall|n: Seq<char>| #[trigger] succs(self.dependencies, n).contains(n) implies has_self_loop(cycles@, n) by {
                lemma_succ_source_is_key(self.dependencies, n, n);
                let k = choose|k: int| 0 <= k < self.dependencies.spec_keys().len() && self.dependencies.spec_keys()[k] == n;
                assert(views(visited@).contains(n));
                assert(views(rec_stack@).len() == 0);
                assert(!views(rec_stack@).contains(n));
                assert(rank.dom().contains(n));
            }
            assert forall|c: Seq<Seq<char>>| #[trigger] is_cycle(self.dependencies, c) implies exists|k: int|
                0 <= k < c.len() && on_listed(cycles@, #[trigger] c[k]) by {
                let g = self.dependencies;
                if !(exists|k: int| 0 <= k < c.len() && on_listed(cycles@, #[trigger] c[k])) {
                    assert(succs(g, c[0]).contains(c[1]));
                    lemma_succ_source_is_key(g, c[0], c[1]);
                    let k = choose|k: int| 0 <= k < g.spec_keys().len() && g.spec_keys()[k] == c[0];
                    assert(views(visited@).contains(c[0]));
                    assert(views(rec_stack@).len() == 0);
                    assert(!views(rec_stack@).contains(c[0]));
                    assert forall|k: int| 0 <= k < c.len() implies !on_listed(cycles@, #[trigger] c[k]) by {}
                    lemma_settled_fall(g, rank, cycles@, c);
                    assert(false);
                }
            }
            if cycles@.len() > 0 {
                assert(is_cycle(self.dependencies, views(cycles@[0]@)));
            }
            if cycles@.len() == 0 && has_cycle(self.dependencies) {
                let g = self.dependencies;
                let c = choose|c: Seq<Seq<char>>| is_cycle(g, c);
                assert(succs(g, c[0]).contains(c[1]));
                lemma_succ_source_is_key(g, c[0], c[1]);
                let k = choose|k: int| 0 <= k < g.spec_keys().len() && g.spec_keys()[k] == c[0];
                assert(views(visited@).contains(c[0]));
                assert(views(rec_stack@).len() == 0);
                assert(!views(rec_stack@).contains(c[0]));
                lemma_ranks_fall(g, rank, c);
                assert(false);
            }
        }
        cycles
    }

    /// One depth-first visit of `module` and everything it reaches that was
    /// not visited yet; cycles found are appended to `cycles`.
    #[verifier::rlimit(80)]
    fn dfs_find_cycles(
        &self,
        module: &String,
        visited: &mut Vec<String>,
        rec_stack: &mut Vec<String>,
        current_path: &mut Vec<String>,
        cycles: &mut Vec<Vec<String>>,
        rank0: Ghost<Map<Seq<char>, int>>,
        next0: Ghost<int>,
    ) -> (out: Ghost<(Map<Seq<char>, int>, int)>)
        requires
            search_ok(self.dependencies, old(visited)@, old(rec_stack)@, old(current_path)@),
            ranks_ok(views(old(visited)@), views(old(rec_stack)@), rank0@, next0@),
            old(cycles)@.len() == 0 ==> ranks_descend(self.dependencies, rank0@),
            !views(old(visited)@).contains(module@),
            graph_names(self.dependencies).contains(module@),
            old(current_path)@.len() > 0 ==> succs(self.dependencies, views(old(current_path)@).last()).contains(module@),
            all_cycles(self.dependencies, old(cycles)@),
            loops_listed(self.dependencies, rank0@, old(cycles)@),
            edges_settled(self.dependencies, rank0@, old(cycles)@),
        ensures
            search_ok(self.dependencies, final(visited)@, final(rec_stack)@, final(current_path)@),
            final(current_path)@ == old(current_path)@,
            forall|n: Seq<char>| views(old(visited)@).contains(n) ==> views(final(visited)@).contains(n),
            final(visited)@.len() > old(visited)@.len(),
            all_cycles(self.dependencies, final(cycles)@),
            ranks_ok(views(final(visited)@), views(final(rec_stack)@), out@.0, out@.1),
            final(cycles)@.len() == 0 ==> ranks_descend(self.dependencies, out@.0),
            final(cycles)@.len() >= old(cycles)@.len(),
            out@.0.dom().contains(module@),
            forall|n: Seq<char>| #[trigger] rank0@.dom().contains(n) ==> out@.0.dom().contains(n) && out@.0[n]
                == rank0@[n],
            loops_listed(self.dependencies, out@.0, final(cycles)@),
            extends(old(cycles)@, final(cycles)@),
            edges_settled(self.dependencies, out@.0, final(cycles)@),
        decreases graph_names(self.dependencies).len() - old(visited)@.len(),
    {
        let g = &self.dependencies;
        let ghost v0 = views(visited@);
        let ghost p0 = current_path@;
        proof {
            vstd::seq_lib::seq_to_set_is_finite(g.spec_keys() + all_listed(g.entries()));
            v0.unique_seq_to_set();
            vstd::set_lib::lemma_len_subset(v0.to_set(), graph_names(*g));
            assert(!v0.to_set().contains(module@));
            vstd::set_lib::lemma_len_subset(v0.to_set().insert(module@), graph_names(*g));
        }
        visited.push(module.clone());
        rec_stack.push(module.clone());
        current_path.push(module.clone());
        proof {
            assert(views(visited@) =~= v0.push(module@));
            assert(views(rec_stack@) =~= views(old(rec_stack)@).push(module@));
            assert(views(rec_stack@) =~= views(current_path@));
            assert(views(current_path@) =~= views(p0).push(module@));
            assert forall|q: Seq<char>| views(visited@).contains(q) implies graph_names(*g).contains(q) by {
                let k = choose|k: int| 0 <= k < views(visited@).len() && views(visited@)[k] == q;
                if k < v0.len() {
                    assert(v0[k] == q);
                }
            }
            assert forall|q: Seq<char>| v0.contains(q) implies views(visited@).contains(q) by {
                let k = choose|k: int| 0 <= k < v0.len() && v0[k] == q;
                assert(views(visited@)[k] == q);
            }
            assert forall|q: Seq<char>| views(current_path@).contains(q) implies views(visited@).contains(q) by {
                let k = choose|k: int| 0 <= k < views(current_path@).len() && views(current_path@)[k] == q;
                if k < p0.len() {
                    assert(views(p0)[k] == q);
                    assert(views(p0).contains(q));
                } else {
                    assert(views(visited@)[v0.len() as int] == module@);
                }
            }
            assert forall|k: int| 0 <= k < views(current_path@).len() - 1 implies succs(*g, #[trigger] views(current_path@)[k]).contains(views(current_path@)[k + 1]) by {
                if k < p0.len() - 1 {
                    assert(views(current_path@)[k] == views(p0)[k]);
                    assert(views(current_path@)[k + 1] == views(p0)[k + 1]);
                } else {
                    assert(views(current_path@)[k] == views(p0).last());
                }
            }
            assert(views(visited@).no_duplicates());
            assert(search_ok(*g, visited@, rec_stack@, current_path@));
        }
        let ghost path_here = current_path@;
        let ghost s0 = views(old(rec_stack)@);
        let ghost mut rank = rank0@;
        let ghost mut next = next0@;
        proof {
            assert(s0 =~= views(p0));
            assert(views(rec_stack@)[s0.len() as int] == module@);
            assert forall|n: Seq<char>| #[trigger] s0.contains(n) implies views(rec_stack@).contains(n) by {
                let k = choose|k: int| 0 <= k < s0.len() && s0[k] == n;
                assert(views(rec_stack@)[k] == n);
            }
            assert forall|n: Seq<char>| #[trigger] rank.dom().contains(n) implies views(visited@).contains(n)
                && !views(rec_stack@).contains(n) && rank[n] < next by {
                assert(v0.contains(n));
                assert(!s0.contains(n));
                if n == module@ {
                    assert(false);
                }
                if views(rec_stack@).contains(n) {
                    let k = choose|k: int| 0 <= k < views(rec_stack@).len() && views(rec_stack@)[k] == n;
                    if k < s0.len() {
                        assert(s0[k] == n);
                    }
                }
            }
            assert forall|n: Seq<char>| #[trigger] views(visited@).contains(n) implies views(rec_stack@).contains(n)
                || rank.dom().contains(n) by {
                let k = choose|k: int| 0 <= k < views(visited@).len() && views(visited@)[k] == n;
                if k < v0.len() {
                    assert(v0[k] == n);
                    assert(v0.contains(n));
                }
            }
        }
        match g.get(module.as_str()) {
            Some(deps) => {
                let mut j: usize = 0;
                while j < deps.len()
                    invariant
                        *g == self.dependencies,
                        g.spec_get(module@) == Some(*deps),
                        succs(*g, module@) == views(deps@),
                        j <= deps@.len(),
                        search_ok(*g, visited@, rec_stack@, current_path@),
                        current_path@ == path_here,
                        views(path_here).last() == module@,
                        forall|n: Seq<char>| v0.contains(n) ==> views(visited@).contains(n),
                        visited@.len() > v0.len(),
                        v0.len() == old(visited)@.len(),
                        all_cycles(*g, cycles@),
                        graph_names(*g).finite(),
                        graph_names(self.dependencies).len() - v0.len() >= 1,
                        ranks_ok(views(visited@), views(rec_stack@), rank, next),
                        cycles@.len() == 0 ==> ranks_descend(*g, rank),
                        cycles@.len() >= old(cycles)@.len(),
                        forall|n: Seq<char>| #[trigger] rank0@.dom().contains(n) ==> rank.dom().contains(n)
                            && rank[n] == rank0@[n],
                        views(rec_stack@).contains(module@),
                        cycles@.len() == 0 ==> forall|k: int|
                            0 <= k < j ==> rank.dom().contains(#[trigger] views(deps@)[k]),
                        loops_listed(*g, rank, cycles@),
                        extends(old(cycles)@, cycles@),
                        edges_settled(*g, rank, cycles@),
                        forall|k: int|
                            0 <= k < j ==> (rank.dom().contains(#[trigger] views(deps@)[k]) && rank[views(deps@)[k]] < next)
                                || on_listed(cycles@, module@),
                        (exists|k: int| 0 <= k < j && #[trigger] views(deps@)[k] == module@) ==> has_self_loop(
                            cycles@,
                            module@,
                        ),
                    decreases deps@.len() - j,
                {
                    let dep = &deps[j];
                    let ghost rb = rank;
                    let ghost csb = cycles@;
                    let ghost nb = next;
                    proof {
                        assert(views(deps@)[j as int] == dep@);
                        assert(succs(*g, module@).contains(dep@));
                    }
                    if !contains_string(visited, dep) {
                        proof {
                            lemma_succ_listed(*g, module@, dep@);
                            let k = choose|k: int| 0 <= k < all_listed(g.entries()).len() && all_listed(g.entries())[k] == dep@;
                            assert((g.spec_keys() + all_listed(g.entries()))[g.spec_keys().len() + k] == dep@);
                        }
                        let ghost v1 = views(visited@);
                        proof {
                            v1.unique_seq_to_set();
                            assert(v1.to_set().subset_of(graph_names(*g)));
                            vstd::set_lib::lemma_len_subset(v1.to_set(), graph_names(*g));
                            assert(visited@.len() == v1.len());
                            assert(visited@.len() <= graph_names(self.dependencies).len());
                            assert(visited@.len() > v0.len());
                            assert(v0.len() == old(visited)@.len());
                        }
                        let out = self.dfs_find_cycles(
                            dep,
                            visited,
                            rec_stack,
                            current_path,
                            cycles,
                            Ghost(rank),
                            Ghost(next),
                        );
                        proof {
                            rank = out@.0;
                            next = out@.1;
                            assert forall|n: Seq<char>| v0.contains(n) implies views(visited@).contains(n) by {
                                assert(v1.contains(n));
                            }
                        }
                    } else if contains_string(rec_stack, dep) {
                        let mut start: usize = 0;
                        while start < current_path.len() && !(current_path[start] == *dep)
                            invariant
                                start <= current_path@.len(),
                                forall|k: int| 0 <= k < start ==> (#[trigger] current_path@[k])@ != dep@,
                            decreases current_path@.len() - start,
                        {
                            start = start + 1;
                        }
                        proof {
                            if start >= current_path@.len() {
                                let k = choose|k: int|
                                    0 <= k < views(current_path@).len() && views(current_path@)[k] == dep@;
                                assert(current_path@[k]@ == dep@);
                            }
                        }
                        if start < current_path.len() {
                            let mut cycle: Vec<String> = Vec::new();
                            let mut k: usize = start;
                            while k < current_path.len()
                                invariant
                                    start <= k <= current_path@.len(),
                                    views(cycle@) == views(current_path@).subrange(start as int, k as int),
                                decreases current_path@.len() - k,
                            {
                                let ghost c0 = cycle@;
                                let item = current_path[k].clone();
                                cycle.push(item);
                                proof {
                                    assert(cycle@ =~= c0.push(current_path@[k as int]));
                                    assert(views(cycle@) =~= views(c0).push(current_path@[k as int]@));
                                    assert(views(cycle@) =~= views(current_path@).subrange(start as int, k + 1));
                                }
                                k = k + 1;
                            }
                            let ghost c1 = cycle@;
                            cycle.push(dep.clone());
                            proof {
                                assert(views(current_path@)[start as int] == dep@);
                                assert(views(current_path@).subrange(start as int, current_path@.len() as int) =~= views(current_path@).skip(start as int));
                                assert(views(cycle@) =~= views(current_path@).skip(start as int).push(dep@));
                                lemma_slice_is_path(*g, views(current_path@), start as int, dep@);
                            }
                            let ghost cs0 = cycles@;
                            let ghost cyc = views(cycle@);
                            proof {
                                let pth = views(current_path@);
                                assert(pth[pth.len() - 1] == module@);
                                assert(cyc[pth.len() - 1 - start] == module@);
                                if dep@ == module@ {
                                    let pth = views(current_path@);
                                    assert(pth[pth.len() - 1] == module@);
                                    if start as int != pth.len() - 1 {
                                        assert(pth[start as int] == pth[pth.len() - 1]);
                                    }
                                    assert(cyc =~= seq![module@, module@]);
                                }
                            }
                            cycles.push(cycle);
                            proof {
                                assert(cycles@[cs0.len() as int] == cycle);
                                let pth = views(current_path@);
                                assert(cycles@[cs0.len() as int]@[pth.len() - 1 - start]@ == module@);
                                assert(on_listed(cycles@, module@));
                                assert forall|q: int| 0 <= q < cycles@.len() implies is_cycle(*g, views(#[trigger] cycles@[q]@)) && views(cycles@[q]@).drop_last().no_duplicates() by {
                                    if q < cs0.len() {
                                        assert(cycles@[q] == cs0[q]);
                                    }
                                }
                            }
                        }
                    }
                    proof {
                        assert(extends(csb, cycles@));
                        assert(extends(old(cycles)@, cycles@));
                        lemma_loops_kept(*g, rb, csb, cycles@);
                        if rank == rb {
                            lemma_settled_kept(*g, rb, csb, cycles@);
                        }
                        if on_listed(csb, module@) {
                            lemma_on_listed_kept(csb, cycles@, module@);
                        }
                        assert forall|k: int|
                            0 <= k < j + 1 implies (rank.dom().contains(#[trigger] views(deps@)[k]) && rank[views(deps@)[k]]
                            < next) || on_listed(cycles@, module@) by {
                            if k < j {
                                if !on_listed(csb, module@) {
                                    assert(rb.dom().contains(views(deps@)[k]) && rb[views(deps@)[k]] < nb);
                                }
                            } else {
                                assert(views(deps@)[k] == dep@);
                                if !on_listed(cycles@, module@) {
                                    assert(views(visited@).contains(dep@));
                                    assert(!views(rec_stack@).contains(dep@));
                                }
                            }
                        }
                        if exists|k: int| 0 <= k < j + 1 && #[trigger] views(deps@)[k] == module@ {
                            if dep@ == module@ {
                                assert(views(visited@).contains(module@));
                                assert(views(rec_stack@).contains(module@));
                                if cycles@.len() > csb.len() {
                                    assert(views(cycles@[csb.len() as int]@) == seq![module@, module@]);
                                }
                            } else {
                                let k = choose|k: int| 0 <= k < j + 1 && #[trigger] views(deps@)[k] == module@;
                                assert(k < j);
                                lemma_self_loop_kept(csb, cycles@, module@);
                            }
                        }
                        if cycles@.len() == 0 {
                            assert forall|k: int| 0 <= k < j + 1 implies rank.dom().contains(
                                #[trigger] views(deps@)[k],
                            ) by {
                                if k < j {
                                    assert(rb.dom().contains(views(deps@)[k]));
                                } else {
                                    assert(views(deps@)[k] == dep@);
                                    if !rank.dom().contains(dep@) {
                                        assert(views(visited@).contains(dep@));
                                    }
                                }
                            }
                        }
                    }
                    j = j + 1;
                }
                proof {
                    if succs(*g, module@).contains(module@) {
                        let k = choose|k: int| 0 <= k < views(deps@).len() && views(deps@)[k] == module@;
                        assert(0 <= k < j && views(deps@)[k] == module@);
                    }
                    if cycles@.len() == 0 {
                        assert forall|x: Seq<char>| #[trigger] succs(*g, module@).contains(x) implies rank.dom().contains(
                            x,
                        ) by {
                            let k = choose|k: int| 0 <= k < views(deps@).len() && views(deps@)[k] == x;
                            assert(rank.dom().contains(views(deps@)[k]));
                        }
                    }
                }
            },
            None => {
                proof {
                    assert(succs(*g, module@) =~= Seq::<Seq<char>>::empty());
                }
            },
        }
        let ghost sb = views(rec_stack@);
        let ghost pv = views(current_path@);
        current_path.pop();
        rec_stack.pop();
        proof {
            assert(views(current_path@) =~= pv.drop_last());
            assert(current_path@ =~= p0);
            assert(views(rec_stack@) =~= views(current_path@));
            assert forall|q: Seq<char>| views(current_path@).contains(q) implies views(visited@).contains(q) by {
                let k = choose|k: int| 0 <= k < views(current_path@).len() && views(current_path@)[k] == q;
                assert(pv[k] == q);
            }
            lemma_finish_rank(*g, views(visited@), sb, s0, module@, rank, next, rank0@, cycles@.len() == 0);
            assert forall|n: Seq<char>|
                #[trigger] rank.insert(module@, next).dom().contains(n) && succs(*g, n).contains(n) implies has_self_loop(
                cycles@,
                n,
            ) by {
                if n != module@ {
                    assert(rank.dom().contains(n));
                }
            }
        }
        Ghost((rank.insert(module@, next), next + 1))
    }
}

/// Ranking a module as it leaves the search path keeps the ranking sound.
proof fn lemma_finish_rank(
    g: StringMap<Vec<String>>,
    visited: Seq<Seq<char>>,
    before: Seq<Seq<char>>,
    after: Seq<Seq<char>>,
    m: Seq<char>,
    rank: Map<Seq<char>, int>,
    next: int,
    rank0: Map<Seq<char>, int>,
    clean: bool,
)
    requires
        before == after.push(m),
        !after.contains(m),
        visited.contains(m),
        ranks_ok(visited, before, rank, next),
        clean ==> ranks_descend(g, rank),
        clean ==> forall|x: Seq<char>| #[trigger] succs(g, m).contains(x) ==> rank.dom().contains(x),
        forall|n: Seq<char>| #[trigger] rank0.dom().contains(n) ==> rank.dom().contains(n) && rank[n] == rank0[n],
    ensures
        ranks_ok(visited, after, rank.insert(m, next), next + 1),
        clean ==> ranks_descend(g, rank.insert(m, next)),
        rank.insert(m, next).dom().contains(m),
        forall|n: Seq<char>| #[trigger] rank0.dom().contains(n) ==> rank.insert(m, next).dom().contains(n)
            && rank.insert(m, next)[n] == rank0[n],
{
    let r = rank.insert(m, next);
    assert(before[after.len() as int] == m);
    assert(before.contains(m));
    assert(!rank.dom().contains(m));
    assert forall|n: Seq<char>| #[trigger] after.contains(n) implies before.contains(n) by {
        let k = choose|k: int| 0 <= k < after.len() && after[k] == n;
        assert(before[k] == n);
    }
    assert forall|n: Seq<char>| #[trigger] r.dom().contains(n) implies visited.contains(n) && !after.contains(n)
        && r[n] < next + 1 by {
        if n != m {
            assert(rank.dom().contains(n));
        }
    }
    assert forall|n: Seq<char>| #[trigger] visited.contains(n) implies after.contains(n) || r.dom().contains(n) by {
        if before.contains(n) && n != m {
            let k = choose|k: int| 0 <= k < before.len() && before[k] == n;
            assert(after[k] == n);
        }
    }
    if clean {
        assert forall|n: Seq<char>, x: Seq<char>|
            #![trigger r.dom().contains(n), succs(g, n).contains(x)]
            r.dom().contains(n) && succs(g, n).contains(x) implies r.dom().contains(x) && r[x] < r[n] by {
            if n == m {
                assert(rank.dom().contains(x));
            } else {
                assert(rank.dom().contains(n));
            }
        }
    }
}

} // verus!
