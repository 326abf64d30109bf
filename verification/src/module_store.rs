//! The interpreter's module cache: the cached modules, the dependency
//! graph between them, and the operations that look modules up, follow
//! their dependencies and invalidate what depends on a changed module.

use vstd::prelude::*;
use crate::ast::Value;
use crate::errors::InterpreterError;
use crate::resolution::{join_pieces, join_strings};
use crate::cache::{calculate_string_hash, estimate_module_memory_size, hex_text, memory_estimate, sha256_of_text, ModuleCacheEntry};
use crate::module_cache::{all_listed, graph_names, is_cycle, is_path, reachable_from, reaches, succs, ModuleDependencyTracker, lemma_reach_self, lemma_reach_step};
use crate::string_map::{listed, StringMap};
use crate::text::{contains_string, owned, str_eq, views};
use crate::value::{copy_string, copy_value, same_value};

verus! {

/// Whether `b` is an exact copy of the cache entry `a`, with its access
/// count and time of last access as given.
pub open spec fn entry_copy(a: ModuleCacheEntry, b: ModuleCacheEntry) -> bool {
    &&& same_value(a.module, b.module)
    &&& match (a.file_path, b.file_path) {
        (Some(x), Some(y)) => x@ == y@,
        (None, None) => true,
        _ => false,
    }
    &&& a.last_modified == b.last_modified
    &&& views(a.dependencies@) == views(b.dependencies@)
    &&& a.content_hash@ == b.content_hash@
    &&& a.compilation_time == b.compilation_time
    &&& a.access_count == b.access_count
    &&& a.last_accessed == b.last_accessed
    &&& a.cache_generation == b.cache_generation
    &&& a.memory_size == b.memory_size
}

/// Whether `b` is `a` with everything but its access count and time of
/// last access kept: the same module (a copy), file, modification time,
/// dependencies, content hash, compilation time, generation and memory
/// estimate.
pub open spec fn entry_kept(a: ModuleCacheEntry, b: ModuleCacheEntry) -> bool {
    &&& same_value(a.module, b.module)
    &&& match (a.file_path, b.file_path) {
        (Some(x), Some(y)) => x@ == y@,
        (None, None) => true,
        _ => false,
    }
    &&& a.last_modified == b.last_modified
    &&& views(a.dependencies@) == views(b.dependencies@)
    &&& a.content_hash@ == b.content_hash@
    &&& a.compilation_time == b.compilation_time
    &&& a.cache_generation == b.cache_generation
    &&& a.memory_size == b.memory_size
}

/// Copies of a list of strings.
pub(crate) fn copy_strings(v: &Vec<String>) -> (r: Vec<String>)
    ensures
        views(r@) == views(v@),
{
    let mut r: Vec<String> = Vec::new();
    let mut i: usize = 0;
    while i < v.len()
        invariant
            i <= v@.len(),
            r@.len() == i,
            forall|k: int| 0 <= k < i ==> (#[trigger] r@[k])@ == v@[k]@,
        decreases v@.len() - i,
    {
        r.push(copy_string(&v[i]));
        i = i + 1;
    }
    proof {
        assert(views(r@) =~= views(v@));
    }
    r
}

/// An exact copy of a cache entry.
pub fn copy_entry(e: &ModuleCacheEntry) -> (r: ModuleCacheEntry)
    ensures
        entry_copy(*e, r),
{
    ModuleCacheEntry {
        module: copy_value(&e.module),
        file_path: match &e.file_path {
            Some(p) => Some(copy_string(p)),
            None => None,
        },
        last_modified: e.last_modified,
        dependencies: copy_strings(&e.dependencies),
        content_hash: copy_string(&e.content_hash),
        compilation_time: e.compilation_time,
        access_count: e.access_count,
        last_accessed: e.last_accessed,
        cache_generation: e.cache_generation,
        memory_size: e.memory_size,
    }
}

/// What is known of the file a module was loaded from: its path, its
/// modification time (milliseconds since the epoch, if it could be read)
/// and the hash of its content.
pub struct CachedFile {
    pub path: String,
    pub last_modified: Option<u64>,
    pub content_hash: String,
}

/// The cached modules and the dependency graph between them, with the
/// counts of cache hits, misses and invalidations.
pub struct ModuleStore {
    pub module_cache: StringMap<ModuleCacheEntry>,
    pub dependency_tracker: ModuleDependencyTracker,
    pub cache_hits: u64,
    pub cache_misses: u64,
    pub invalidations: u64,
}

/// Whether `x` is a direct dependency of some module that `start` reaches.
pub open spec fn reached_by_edge(g: StringMap<Vec<String>>, start: Seq<char>, x: Seq<char>) -> bool {
    exists|y: Seq<char>| reaches(g, start, y) && #[trigger] succs(g, y).contains(x)
}

/// Every visited module off the walk's current stack has all its direct
/// dependencies visited and listed.
pub open spec fn closed_outside(
    g: StringMap<Vec<String>>,
    visited: Seq<Seq<char>>,
    chain: Seq<Seq<char>>,
    stack: Set<Seq<char>>,
) -> bool {
    forall|n: Seq<char>, x: Seq<char>|
        #![trigger visited.contains(n), succs(g, n).contains(x)]
        visited.contains(n) && !stack.contains(n) && succs(g, n).contains(x) ==> visited.contains(x)
            && chain.contains(x)
}

proof fn lemma_push_keeps(s: Seq<Seq<char>>, a: Seq<char>)
    ensures
        forall|x: Seq<char>| #[trigger] s.contains(x) ==> s.push(a).contains(x),
{
    assert forall|x: Seq<char>| #[trigger] s.contains(x) implies s.push(a).contains(x) by {
        let k = choose|k: int| 0 <= k < s.len() && s[k] == x;
        assert(s.push(a)[k] == x);
    }
}

proof fn lemma_closed_grows_chain(
    g: StringMap<Vec<String>>,
    visited: Seq<Seq<char>>,
    c1: Seq<Seq<char>>,
    c2: Seq<Seq<char>>,
    stack: Set<Seq<char>>,
)
    requires
        closed_outside(g, visited, c1, stack),
        forall|x: Seq<char>| #[trigger] c1.contains(x) ==> c2.contains(x),
    ensures
        closed_outside(g, visited, c2, stack),
{
    assert forall|n: Seq<char>, x: Seq<char>|
        #![trigger visited.contains(n), succs(g, n).contains(x)]
        visited.contains(n) && !stack.contains(n) && succs(g, n).contains(x) implies visited.contains(x)
        && c2.contains(x) by {
        assert(c1.contains(x));
    }
}

/// Whether module `x` lies on a cycle of dependencies.
pub open spec fn on_cycle(g: StringMap<Vec<String>>, x: Seq<char>) -> bool {
    exists|c: Seq<Seq<char>>| #[trigger] is_cycle(g, c) && c[0] == x
}

/// Whether each listed module comes after every module it depends on,
/// unless it lies on a cycle.
pub open spec fn chain_ordered(g: StringMap<Vec<String>>, chain: Seq<Seq<char>>) -> bool {
    forall|i: int, y: Seq<char>|
        0 <= i < chain.len() && #[trigger] succs(g, chain[i]).contains(y) ==> chain.take(i).contains(y) || on_cycle(
            g,
            chain[i],
        )
}

/// A walk from `a` to `b` closed by an edge from `b` back to `a` is a
/// cycle through `a`.
proof fn lemma_close_cycle(g: StringMap<Vec<String>>, a: Seq<char>, b: Seq<char>)
    requires
        reaches(g, a, b),
        succs(g, b).contains(a),
    ensures
        on_cycle(g, a),
{
    let p = choose|p: Seq<Seq<char>>| is_path(g, p) && p[0] == a && p.last() == b;
    let c = p.push(a);
    assert forall|i: int| 0 <= i < c.len() - 1 implies succs(g, #[trigger] c[i]).contains(c[i + 1]) by {
        if i < p.len() - 1 {
            assert(c[i] == p[i] && c[i + 1] == p[i + 1]);
        } else {
            assert(c[i] == b);
        }
    }
    assert(is_cycle(g, c) && c[0] == a);
}

/// Appending a module whose dependencies are all listed, or that lies on a
/// cycle, keeps the chain ordered.
proof fn lemma_ordered_push(g: StringMap<Vec<String>>, c: Seq<Seq<char>>, x: Seq<char>)
    requires
        chain_ordered(g, c),
        (forall|y: Seq<char>| #[trigger] succs(g, x).contains(y) ==> c.contains(y)) || on_cycle(g, x),
    ensures
        chain_ordered(g, c.push(x)),
{
    let c2 = c.push(x);
    assert forall|i: int, y: Seq<char>|
        0 <= i < c2.len() && #[trigger] succs(g, c2[i]).contains(y) implies c2.take(i).contains(y) || on_cycle(
        g,
        c2[i],
    ) by {
        if i < c.len() {
            assert(c2[i] == c[i]);
            assert(c2.take(i) =~= c.take(i));
        } else {
            assert(c2.take(i) =~= c);
        }
    }
}

impl ModuleStore {
    /// No module cached, no dependency known, nothing counted.
    pub fn new() -> (s: Self)
        ensures
            s.module_cache.entries().len() == 0,
            s.dependency_tracker.dependencies.entries().len() == 0,
            s.dependency_tracker.dependents.entries().len() == 0,
            s.dependency_tracker.dependency_timestamps.entries().len() == 0,
            s.dependency_tracker.dependency_hashes.entries().len() == 0,
            s.dependency_tracker.invalidation_queue@.len() == 0,
            s.dependency_tracker.dependency_graph_hash@.len() == 0,
            s.cache_hits == 0,
            s.cache_misses == 0,
            s.invalidations == 0,
    {
        ModuleStore {
            module_cache: StringMap::new(),
            dependency_tracker: ModuleDependencyTracker::new(),
            cache_hits: 0,
            cache_misses: 0,
            invalidations: 0,
        }
    }

    /// Caches `entry` under `name`, replacing any earlier entry.
    pub fn insert_entry(&mut self, name: String, entry: ModuleCacheEntry)
        ensures
            final(self).module_cache.spec_get(name@) == Some(entry),
            forall|k: Seq<char>| k != name@ ==> #[trigger] final(self).module_cache.spec_get(k)
                == old(self).module_cache.spec_get(k),
            final(self).dependency_tracker == old(self).dependency_tracker,
            final(self).cache_hits == old(self).cache_hits,
            final(self).cache_misses == old(self).cache_misses,
            final(self).invalidations == old(self).invalidations,
    {
        self.module_cache.insert(name, entry);
    }

    /// Caches a freshly loaded module at `now` (milliseconds): compiled in
    /// no time, accessed once, of the first generation, with its memory
    /// estimated from its value. A module read from a file carries the
    /// file's path, modification time and content hash; any other is
    /// identified by the hash of its name.
    pub fn cache_module(
        &mut self,
        name: String,
        module: Value,
        file: Option<CachedFile>,
        dependencies: Vec<String>,
        now: u64,
    )
        requires
            memory_estimate(module, None, false) <= usize::MAX,
        ensures
            final(self).module_cache.spec_get(name@) matches Some(e) && e.module == module && e.dependencies
                == dependencies && e.access_count == 1 && e.last_accessed == now && e.cache_generation == 1
                && e.compilation_time == 0 && e.memory_size == memory_estimate(module, None, false) && match file {
                Some(f) => e.file_path == Some(f.path) && e.last_modified == f.last_modified && e.content_hash
                    == f.content_hash,
                None => e.file_path is None && e.last_modified is None && e.content_hash@ == hex_text(
                    sha256_of_text(name@),
                ),
            },
            forall|k: Seq<char>| k != name@ ==> #[trigger] final(self).module_cache.spec_get(k)
                == old(self).module_cache.spec_get(k),
            final(self).dependency_tracker == old(self).dependency_tracker,
            final(self).cache_hits == old(self).cache_hits,
            final(self).cache_misses == old(self).cache_misses,
            final(self).invalidations == old(self).invalidations,
    {
        let memory_size = estimate_module_memory_size(&module, None, false);
        let (file_path, last_modified, content_hash) = match file {
            Some(f) => (Some(f.path), f.last_modified, f.content_hash),
            None => (None, None, calculate_string_hash(name.as_str())),
        };
        let entry = ModuleCacheEntry {
            module,
            file_path,
            last_modified,
            dependencies,
            content_hash,
            compilation_time: 0,
            access_count: 1,
            last_accessed: now,
            cache_generation: 1,
            memory_size,
        };
        self.module_cache.insert(name, entry);
    }

    /// Whether a module is cached.
    pub fn is_module_cached(&self, name: &str) -> (r: bool)
        ensures
            r == self.module_cache.spec_get(name@) is Some,
    {
        self.module_cache.contains_key(name)
    }

    /// Looks a module up in the cache. A miss is counted and gives `None`.
    /// A hit is counted and the entry's access count and time of last
    /// access (`now`) are updated; then, when `current_hash` (the hash of
    /// the module's file now, given when the cache checks content and the
    /// file exists) differs from the cached one, the entry is dropped, the
    /// invalidation counted, and the result is `None`; otherwise the result
    /// is a copy of the updated entry.
    pub fn get_cached_module(&mut self, name: &str, now: u64, current_hash: Option<String>) -> (r: Option<
        ModuleCacheEntry,
    >)
        requires
            old(self).cache_hits < u64::MAX,
            old(self).cache_misses < u64::MAX,
            old(self).invalidations < u64::MAX,
            old(self).module_cache.spec_get(name@) matches Some(e) ==> e.access_count < u64::MAX,
        ensures
            final(self).dependency_tracker == old(self).dependency_tracker,
            forall|k: Seq<char>| k != name@ ==> #[trigger] final(self).module_cache.spec_get(k)
                == old(self).module_cache.spec_get(k),
            match old(self).module_cache.spec_get(name@) {
                None => r is None && final(self).cache_misses == old(self).cache_misses + 1
                    && final(self).cache_hits == old(self).cache_hits && final(self).invalidations
                    == old(self).invalidations && final(self).module_cache.spec_get(name@) is None,
                Some(e) => {
                    &&& final(self).cache_hits == old(self).cache_hits + 1
                    &&& final(self).cache_misses == old(self).cache_misses
                    &&& if (current_hash matches Some(h) && h@ != e.content_hash@) {
                        &&& r is None
                        &&& final(self).module_cache.spec_get(name@) is None
                        &&& final(self).invalidations == old(self).invalidations + 1
                    } else {
                        &&& final(self).invalidations == old(self).invalidations
                        &&& final(self).module_cache.spec_get(name@) matches Some(f)
                        &&& f.access_count == e.access_count + 1
                        &&& f.last_accessed == now
                        &&& entry_kept(e, f)
                        &&& r matches Some(c)
                        &&& entry_copy(f, c)
                    }
                },
            },
    {
        let found = match self.module_cache.get(name) {
            Some(e) => Some(copy_entry(e)),
            None => None,
        };
        match found {
            None => {
                self.cache_misses = self.cache_misses + 1;
                None
            },
            Some(mut entry) => {
                entry.access_count = entry.access_count + 1;
                entry.last_accessed = now;
                self.cache_hits = self.cache_hits + 1;
                let stale = match &current_hash {
                    Some(h) => !str_eq(h.as_str(), entry.content_hash.as_str()),
                    None => false,
                };
                if stale {
                    self.invalidations = self.invalidations + 1;
                    self.module_cache.remove(name);
                    return None;
                }
                let result = copy_entry(&entry);
                self.module_cache.insert(owned(name), entry);
                Some(result)
            },
        }
    }

    /// The modules that depend on `name` directly.
    pub fn get_module_dependents(&self, name: &str) -> (r: Vec<String>)
        ensures
            views(r@) == listed(self.dependency_tracker.dependents, name@),
    {
        match self.dependency_tracker.dependents.get(name) {
            Some(list) => copy_strings(list),
            None => {
                let r: Vec<String> = Vec::new();
                proof {
                    assert(views(r@) =~= Seq::<Seq<char>>::empty());
                }
                r
            },
        }
    }

    /// Whether making `from` depend on `to` would close a cycle: true
    /// exactly when `to` already reaches `from`.
    pub fn would_create_circular_dependency(&self, from: &str, to: &str) -> (r: bool)
        ensures
            r == reaches(self.dependency_tracker.dependencies, to@, from@),
    {
        self.dependency_tracker.check_circular_dependency(from, to)
    }

    /// Drops `name` and everything that depends on it, directly or not,
    /// from the cache.
    pub fn invalidate_module(&mut self, name: &str)
        ensures
            forall|k: Seq<char>| #[trigger] final(self).module_cache.spec_get(k) == if reaches(
                old(self).dependency_tracker.dependents,
                name@,
                k,
            ) {
                None
            } else {
                old(self).module_cache.spec_get(k)
            },
            final(self).dependency_tracker == old(self).dependency_tracker,
            final(self).cache_hits == old(self).cache_hits,
            final(self).cache_misses == old(self).cache_misses,
            final(self).invalidations == old(self).invalidations,
    {
        let doomed = reachable_from(&self.dependency_tracker.dependents, name);
        let mut i: usize = 0;
        while i < doomed.len()
            invariant
                i <= doomed@.len(),
                self.dependency_tracker == old(self).dependency_tracker,
                self.cache_hits == old(self).cache_hits,
                self.cache_misses == old(self).cache_misses,
                self.invalidations == old(self).invalidations,
                forall|n: Seq<char>| #[trigger] views(doomed@).contains(n) <==> reaches(
                    old(self).dependency_tracker.dependents,
                    name@,
                    n,
                ),
                forall|k: Seq<char>| #[trigger] self.module_cache.spec_get(k) == if views(doomed@).take(i as int).contains(k) {
                    None
                } else {
                    old(self).module_cache.spec_get(k)
                },
            decreases doomed@.len() - i,
        {
            let ghost before = self.module_cache;
            self.module_cache.remove(doomed[i].as_str());
            proof {
                let t = views(doomed@).take(i + 1);
                assert(t =~= views(doomed@).take(i as int).push(doomed@[i as int]@));
                assert forall|k: Seq<char>| #[trigger] self.module_cache.spec_get(k) == if t.contains(k) {
                    None
                } else {
                    old(self).module_cache.spec_get(k)
                } by {
                    if k != doomed@[i as int]@ {
                        assert(self.module_cache.spec_get(k) == before.spec_get(k));
                        if t.contains(k) {
                            let j = choose|j: int| 0 <= j < t.len() && t[j] == k;
                            assert(views(doomed@).take(i as int)[j] == k);
                        }
                    } else {
                        assert(t[i as int] == k);
                    }
                }
            }
            i = i + 1;
        }
        proof {
            assert(views(doomed@).take(doomed@.len() as int) =~= views(doomed@));
        }
    }

    /// The modules `name` depends on, directly or not, in the order a
    /// depth-first walk finishes them, each once: exactly the direct
    /// dependencies of the modules that `name` reaches. Each module comes
    /// after every module it depends on, unless it lies on a cycle.
    pub fn get_dependency_chain(&self, name: &str) -> (chain: Vec<String>)
        ensures
            views(chain@).no_duplicates(),
            chain_ordered(self.dependency_tracker.dependencies, views(chain@)),
            forall|x: Seq<char>| #[trigger] views(chain@).contains(x) <==> reached_by_edge(
                self.dependency_tracker.dependencies,
                name@,
                x,
            ),
    {
        let g = &self.dependency_tracker.dependencies;
        let ghost univ = graph_names(*g).insert(name@);
        let mut chain: Vec<String> = Vec::new();
        let mut visited: Vec<String> = Vec::new();
        let start = owned(name);
        proof {
            lemma_reach_self(*g, name@);
            lemma_graph_names_finite(*g);
            assert(views(chain@) =~= Seq::<Seq<char>>::empty());
            assert(views(visited@) =~= Seq::<Seq<char>>::empty());
        }
        self.collect_dependency_chain(
            &start,
            &mut chain,
            &mut visited,
            Ghost(name@),
            Ghost(univ),
            Ghost(Set::empty()),
        );
        proof {
            let vs = views(visited@).to_set();
            assert forall|n: Seq<char>, x: Seq<char>| vs.contains(n) && succs(*g, n).contains(x) implies vs.contains(
                x,
            ) by {
                assert(views(visited@).contains(n));
            }
            assert forall|x: Seq<char>| reached_by_edge(*g, name@, x) implies #[trigger] views(chain@).contains(x) by {
                let y = choose|y: Seq<char>| reaches(*g, name@, y) && #[trigger] succs(*g, y).contains(x);
                let p = choose|p: Seq<Seq<char>>| crate::module_cache::is_path(*g, p) && p[0] == name@ && p.last() == y;
                assert(vs.contains(p[0]));
                crate::module_cache::lemma_closed_holds_path(*g, vs, p);
                assert(views(visited@).contains(y));
            }
        }
        chain
    }

    fn collect_dependency_chain(
        &self,
        module: &String,
        chain: &mut Vec<String>,
        visited: &mut Vec<String>,
        start: Ghost<Seq<char>>,
        univ: Ghost<Set<Seq<char>>>,
        stack: Ghost<Set<Seq<char>>>,
    )
        requires
            univ@ == graph_names(self.dependency_tracker.dependencies).insert(start@),
            univ@.finite(),
            univ@.contains(module@),
            reaches(self.dependency_tracker.dependencies, start@, module@),
            views(old(visited)@).no_duplicates(),
            forall|n: Seq<char>| #[trigger] views(old(visited)@).contains(n) ==> univ@.contains(n),
            views(old(chain)@).no_duplicates(),
            forall|x: Seq<char>| #[trigger] views(old(chain)@).contains(x) ==> reached_by_edge(
                self.dependency_tracker.dependencies,
                start@,
                x,
            ),
            closed_outside(self.dependency_tracker.dependencies, views(old(visited)@), views(old(chain)@), stack@),
            forall|n: Seq<char>| #[trigger] stack@.contains(n) ==> reaches(self.dependency_tracker.dependencies, n, module@),
            chain_ordered(self.dependency_tracker.dependencies, views(old(chain)@)),
        ensures
            views(final(visited)@).no_duplicates(),
            forall|n: Seq<char>| #[trigger] views(final(visited)@).contains(n) ==> univ@.contains(n),
            final(visited)@.len() >= old(visited)@.len(),
            views(final(chain)@).no_duplicates(),
            forall|x: Seq<char>| #[trigger] views(final(chain)@).contains(x) ==> reached_by_edge(
                self.dependency_tracker.dependencies,
                start@,
                x,
            ),
            views(final(visited)@).contains(module@),
            forall|n: Seq<char>| #[trigger] views(old(visited)@).contains(n) ==> views(final(visited)@).contains(n),
            forall|x: Seq<char>| #[trigger] views(old(chain)@).contains(x) ==> views(final(chain)@).contains(x),
            closed_outside(self.dependency_tracker.dependencies, views(final(visited)@), views(final(chain)@), stack@),
            chain_ordered(self.dependency_tracker.dependencies, views(final(chain)@)),
        decreases univ@.len() - old(visited)@.len(),
    {
        let g = &self.dependency_tracker.dependencies;
        if contains_string(visited, module) {
            return;
        }
        proof {
            views(visited@).unique_seq_to_set();
            vstd::set_lib::lemma_len_subset(views(visited@).to_set(), univ@);
            assert(!views(visited@).to_set().contains(module@));
            vstd::set_lib::lemma_len_subset(views(visited@).to_set().insert(module@), univ@);
        }
        let ghost v0 = views(visited@);
        let ghost c0 = views(chain@);
        let ghost inner = stack@.insert(module@);
        visited.push(copy_string(module));
        proof {
            lemma_reach_self(*g, module@);
            assert(views(visited@) =~= v0.push(module@));
            assert forall|a: int, b: int| 0 <= a < b < views(visited@).len() implies views(visited@)[a] != views(
                visited@,
            )[b] by {
                if b == v0.len() {
                    assert(v0[a] == views(visited@)[a]);
                    assert(v0.contains(views(visited@)[a]));
                }
            }
            assert forall|n: Seq<char>| #[trigger] views(visited@).contains(n) implies univ@.contains(n) by {
                let k = choose|k: int| 0 <= k < views(visited@).len() && views(visited@)[k] == n;
                if k < v0.len() {
                    assert(v0[k] == n);
                    assert(v0.contains(n));
                } else {
                    assert(views(visited@)[k] == module@);
                }
            }
            lemma_push_keeps(v0, module@);
            assert(views(visited@).contains(module@)) by {
                assert(views(visited@)[v0.len() as int] == module@);
            }
            assert forall|n: Seq<char>, x: Seq<char>|
                #![trigger views(visited@).contains(n), succs(*g, n).contains(x)]
                views(visited@).contains(n) && !inner.contains(n) && succs(*g, n).contains(x) implies views(
                visited@,
            ).contains(x) && views(chain@).contains(x) by {
                let k = choose|k: int| 0 <= k < views(visited@).len() && views(visited@)[k] == n;
                if k < v0.len() {
                    assert(v0[k] == n);
                    assert(v0.contains(n));
                } else {
                    assert(views(visited@)[k] == module@);
                }
            }
        }
        match g.get(module.as_str()) {
            Some(deps) => {
                let mut j: usize = 0;
                while j < deps.len()
                    invariant
                        *g == self.dependency_tracker.dependencies,
                        univ@ == graph_names(*g).insert(start@),
                        univ@.finite(),
                        g.spec_get(module@) == Some(*deps),
                        succs(*g, module@) == views(deps@),
                        reaches(*g, start@, module@),
                        j <= deps@.len(),
                        views(visited@).no_duplicates(),
                        forall|n: Seq<char>| #[trigger] views(visited@).contains(n) ==> univ@.contains(n),
                        visited@.len() > v0.len(),
                        v0.len() == old(visited)@.len(),
                        v0 == views(old(visited)@),
                        c0 == views(old(chain)@),
                        inner == stack@.insert(module@),
                        views(chain@).no_duplicates(),
                        forall|x: Seq<char>| #[trigger] views(chain@).contains(x) ==> reached_by_edge(*g, start@, x),
                        views(visited@).contains(module@),
                        forall|n: Seq<char>| #[trigger] v0.contains(n) ==> views(visited@).contains(n),
                        forall|x: Seq<char>| #[trigger] c0.contains(x) ==> views(chain@).contains(x),
                        closed_outside(*g, views(visited@), views(chain@), inner),
                        forall|n: Seq<char>| #[trigger] inner.contains(n) ==> reaches(*g, n, module@),
                        chain_ordered(*g, views(chain@)),
                        forall|k: int|
                            0 <= k < j ==> views(visited@).contains(#[trigger] views(deps@)[k]) && views(
                                chain@,
                            ).contains(views(deps@)[k]),
                    decreases deps@.len() - j,
                {
                    let d = &deps[j];
                    let ghost vb = views(visited@);
                    let ghost cb = views(chain@);
                    proof {
                        assert(views(deps@)[j as int] == d@);
                        assert(succs(*g, module@).contains(d@));
                        lemma_reach_step(*g, start@, module@, d@);
                        crate::module_cache::lemma_succ_in_graph(*g, module@, d@);
                        views(visited@).unique_seq_to_set();
                        vstd::set_lib::lemma_len_subset(views(visited@).to_set(), univ@);
                        assert forall|n: Seq<char>| #[trigger] inner.contains(n) implies reaches(*g, n, d@) by {
                            lemma_reach_step(*g, n, module@, d@);
                        }
                    }
                    self.collect_dependency_chain(d, chain, visited, start, univ, Ghost(inner));
                    if !contains_string(chain, d) {
                        let ghost c1 = views(chain@);
                        chain.push(copy_string(d));
                        proof {
                            assert(views(chain@) =~= c1.push(d@));
                            lemma_push_keeps(c1, d@);
                            assert(views(chain@)[c1.len() as int] == d@);
                            assert forall|a: int, b: int| 0 <= a < b < views(chain@).len() implies views(chain@)[a]
                                != views(chain@)[b] by {
                                if b == c1.len() {
                                    assert(c1[a] == views(chain@)[a]);
                                    assert(c1.contains(views(chain@)[a]));
                                }
                            }
                            assert forall|x: Seq<char>| #[trigger] views(chain@).contains(x) implies reached_by_edge(
                                *g,
                                start@,
                                x,
                            ) by {
                                let k = choose|k: int| 0 <= k < views(chain@).len() && views(chain@)[k] == x;
                                if k < c1.len() {
                                    assert(c1[k] == x);
                                    assert(c1.contains(x));
                                } else {
                                    assert(views(chain@)[k] == d@);
                                    assert(reaches(*g, start@, module@) && succs(*g, module@).contains(d@));
                                }
                            }
                            lemma_closed_grows_chain(*g, views(visited@), c1, views(chain@), inner);
                            if inner.contains(d@) {
                                lemma_close_cycle(*g, d@, module@);
                            } else {
                                assert forall|y: Seq<char>| #[trigger] succs(*g, d@).contains(y) implies c1.contains(y) by {
                                    assert(views(visited@).contains(d@));
                                }
                            }
                            lemma_ordered_push(*g, c1, d@);
                        }
                    }
                    proof {
                        assert forall|k: int| 0 <= k < j + 1 implies views(visited@).contains(
                            #[trigger] views(deps@)[k],
                        ) && views(chain@).contains(views(deps@)[k]) by {
                            if k < j {
                                assert(vb.contains(views(deps@)[k]));
                                assert(cb.contains(views(deps@)[k]));
                            } else {
                                assert(views(deps@)[k] == d@);
                            }
                        }
                        assert forall|n: Seq<char>| #[trigger] v0.contains(n) implies views(visited@).contains(n) by {
                            assert(vb.contains(n));
                        }
                        assert forall|x: Seq<char>| #[trigger] c0.contains(x) implies views(chain@).contains(x) by {
                            assert(cb.contains(x));
                        }
                    }
                    j = j + 1;
                }
                proof {
                    assert forall|n: Seq<char>, x: Seq<char>|
                        #![trigger views(visited@).contains(n), succs(*g, n).contains(x)]
                        views(visited@).contains(n) && !stack@.contains(n) && succs(*g, n).contains(x) implies views(
                        visited@,
                    ).contains(x) && views(chain@).contains(x) by {
                        if n == module@ {
                            let k = choose|k: int| 0 <= k < views(deps@).len() && views(deps@)[k] == x;
                            assert(views(visited@).contains(views(deps@)[k]));
                        }
                    }
                }
            },
            None => {
                proof {
                    assert(succs(*g, module@) =~= Seq::<Seq<char>>::empty());
                    assert forall|n: Seq<char>, x: Seq<char>|
                        #![trigger views(visited@).contains(n), succs(*g, n).contains(x)]
                        views(visited@).contains(n) && !stack@.contains(n) && succs(*g, n).contains(x) implies views(
                        visited@,
                    ).contains(x) && views(chain@).contains(x) by {
                        if n == module@ {
                            assert(!succs(*g, module@).contains(x));
                        }
                    }
                    assert forall|x: Seq<char>| #[trigger] c0.contains(x) implies views(chain@).contains(x) by {}
                }
            },
        }
    }

    /// How many modules are cached, how many dependency edges are recorded
    /// (counted from the importing side), and how many from the imported
    /// side.
    pub fn get_module_cache_stats(&self) -> (r: (usize, usize, usize))
        requires
            all_listed(self.dependency_tracker.dependencies.entries()).len() <= usize::MAX,
            all_listed(self.dependency_tracker.dependents.entries()).len() <= usize::MAX,
        ensures
            r.0 == self.module_cache.entries().len(),
            r.1 == all_listed(self.dependency_tracker.dependencies.entries()).len(),
            r.2 == all_listed(self.dependency_tracker.dependents.entries()).len(),
    {
        let a = total_listed(&self.dependency_tracker.dependencies);
        let b = total_listed(&self.dependency_tracker.dependents);
        (self.module_cache.len(), a, b)
    }

    /// The memory all cached modules take, by their estimates.
    pub fn calculate_total_cache_memory(&self) -> (n: usize)
        requires
            cached_memory(self.module_cache.entries()) <= usize::MAX,
        ensures
            n == cached_memory(self.module_cache.entries()),
    {
        let m = &self.module_cache;
        let mut n: usize = 0;
        let mut i: usize = 0;
        while i < m.len()
            invariant
                i <= m.entries().len(),
                n == cached_memory(m.entries().take(i as int)),
                cached_memory(m.entries()) <= usize::MAX,
            decreases m.entries().len() - i,
        {
            proof {
                let t = m.entries().take(i + 1);
                assert(t.drop_last() =~= m.entries().take(i as int));
                lemma_cached_memory_prefix(m.entries(), i + 1);
            }
            n = n + m.value_at(i).memory_size;
            i = i + 1;
        }
        proof {
            assert(m.entries().take(m.entries().len() as int) =~= m.entries());
        }
        n
    }

    /// How many cached modules an intelligent cleanup evicts: none while
    /// the cache is within both limits (its memory in megabytes, its
    /// entries), else enough to come down to four fifths of the entry
    /// limit.
    pub fn intelligent_cleanup_count(&self, max_cache_size_mb: usize, max_cache_entries: usize) -> (n: usize)
        requires
            cached_memory(self.module_cache.entries()) <= usize::MAX,
            max_cache_size_mb * 1024 * 1024 <= usize::MAX,
            max_cache_entries * 80 <= usize::MAX,
        ensures
            n == if cached_memory(self.module_cache.entries()) > max_cache_size_mb * 1024 * 1024
                || self.module_cache.entries().len() > max_cache_entries {
                let keep = (max_cache_entries * 80 / 100) as int;
                if self.module_cache.entries().len() > keep {
                    self.module_cache.entries().len() - keep
                } else {
                    0
                }
            } else {
                0
            },
    {
        let current_memory = self.calculate_total_cache_memory();
        let current_entries = self.module_cache.len();
        if current_memory > max_cache_size_mb * 1024 * 1024 || current_entries > max_cache_entries {
            let target_entries = max_cache_entries * 80 / 100;
            current_entries.saturating_sub(target_entries)
        } else {
            0
        }
    }

    /// A copy of the dependency graph.
    pub fn export_dependency_graph(&self) -> (r: StringMap<Vec<String>>)
        ensures
            forall|k: Seq<char>| #[trigger] listed(r, k) == listed(self.dependency_tracker.dependencies, k),
    {
        let g = &self.dependency_tracker.dependencies;
        let mut r: StringMap<Vec<String>> = StringMap::new();
        let mut i: usize = 0;
        proof {
            assert(g.spec_keys().take(0) =~= Seq::<Seq<char>>::empty());
        }
        while i < g.len()
            invariant
                i <= g.entries().len(),
                forall|k: Seq<char>| #[trigger] r.spec_get(k) is Some <==> g.spec_keys().take(i as int).contains(k),
                forall|k: Seq<char>|
                    #[trigger] listed(r, k) == if g.spec_keys().take(i as int).contains(k) {
                        listed(*g, k)
                    } else {
                        Seq::<Seq<char>>::empty()
                    },
            decreases g.entries().len() - i,
        {
            let key = g.key_at(i);
            let ghost ki = key@;
            let ghost t = g.spec_keys().take(i + 1);
            proof {
                assert(g.spec_keys()[i as int] == ki);
                assert(t =~= g.spec_keys().take(i as int).push(ki));
            }
            if !r.contains_key(key.as_str()) {
                let k = copy_string(key);
                let list = copy_strings(g.value_at(i));
                let ghost before = r;
                proof {
                    if g.spec_keys().take(i as int).contains(ki) {
                        assert(listed(before, ki) == listed(*g, ki));
                    }
                    crate::string_map::lemma_first_entry(g.entries(), i as int);
                }
                r.insert(k, list);
                proof {
                    assert forall|q: Seq<char>| #[trigger] r.spec_get(q) is Some <==> t.contains(q) by {
                        if q != ki {
                            if t.contains(q) {
                                let j = choose|j: int| 0 <= j < t.len() && t[j] == q;
                                assert(g.spec_keys().take(i as int)[j] == q);
                            }
                            if g.spec_keys().take(i as int).contains(q) {
                                let j = choose|j: int| 0 <= j < i && g.spec_keys().take(i as int)[j] == q;
                                assert(t[j] == q);
                            }
                        } else {
                            assert(t[i as int] == q);
                        }
                    }
                    assert forall|q: Seq<char>|
                        #[trigger] listed(r, q) == if t.contains(q) {
                            listed(*g, q)
                        } else {
                            Seq::<Seq<char>>::empty()
                        } by {
                        if q != ki {
                            assert(listed(r, q) == listed(before, q));
                            if t.contains(q) {
                                let j = choose|j: int| 0 <= j < t.len() && t[j] == q;
                                assert(g.spec_keys().take(i as int)[j] == q);
                            }
                        } else {
                            assert(t[i as int] == q);
                        }
                    }
                }
            } else {
                proof {
                    assert forall|q: Seq<char>| #[trigger] r.spec_get(q) is Some <==> t.contains(q) by {
                        if t.contains(q) && q != ki {
                            let j = choose|j: int| 0 <= j < t.len() && t[j] == q;
                            assert(g.spec_keys().take(i as int)[j] == q);
                        }
                        if g.spec_keys().take(i as int).contains(q) {
                            let j = choose|j: int| 0 <= j < i && g.spec_keys().take(i as int)[j] == q;
                            assert(t[j] == q);
                        }
                    }
                    assert forall|q: Seq<char>|
                        #[trigger] listed(r, q) == if t.contains(q) {
                            listed(*g, q)
                        } else {
                            Seq::<Seq<char>>::empty()
                        } by {
                        if t.contains(q) && q != ki {
                            let j = choose|j: int| 0 <= j < t.len() && t[j] == q;
                            assert(g.spec_keys().take(i as int)[j] == q);
                        }
                    }
                }
            }
            i = i + 1;
        }
        proof {
            assert(g.spec_keys().take(g.entries().len() as int) =~= g.spec_keys());
            assert forall|k: Seq<char>| #[trigger] listed(r, k) == listed(*g, k) by {
                crate::string_map::lemma_spec_keys(*g, k);
            }
        }
        r
    }

    /// Forgets every cached module, the dependency graph and the counts.
    pub fn clear_module_cache(&mut self)
        ensures
            final(self).module_cache.entries().len() == 0,
            final(self).dependency_tracker.dependencies.entries().len() == 0,
            final(self).dependency_tracker.dependents.entries().len() == 0,
            final(self).cache_hits == 0,
            final(self).cache_misses == 0,
            final(self).invalidations == 0,
    {
        *self = ModuleStore::new();
    }
}

/// The error for loading `module` while its own load is still under way:
/// the loads from its first one onwards, then the module again, joined by
/// " → ". `None` when the module is not being loaded.
pub fn loading_cycle(loading_stack: &Vec<String>, module: &str) -> (r: Option<InterpreterError>)
    ensures
        match r {
            None => !views(loading_stack@).contains(module@),
            Some(e) => exists|i: int|
                0 <= i < loading_stack@.len() && views(loading_stack@)[i] == module@ && (forall|j: int|
                    0 <= j < i ==> views(loading_stack@)[j] != module@) && (e matches InterpreterError::CircularDependencyDetected {
                    cycle_path: p,
                } && p@ == join_pieces(views(loading_stack@).skip(i).push(module@), " → "@)),
        },
{
    let mut i: usize = 0;
    while i < loading_stack.len()
        invariant
            i <= loading_stack@.len(),
            forall|j: int| 0 <= j < i ==> views(loading_stack@)[j] != module@,
        decreases loading_stack@.len() - i,
    {
        if str_eq(loading_stack[i].as_str(), module) {
            let mut cycle: Vec<String> = Vec::new();
            let mut k: usize = i;
            while k < loading_stack.len()
                invariant
                    i <= k <= loading_stack@.len(),
                    views(cycle@) == views(loading_stack@).subrange(i as int, k as int),
                decreases loading_stack@.len() - k,
            {
                let ghost c0 = cycle@;
                cycle.push(copy_string(&loading_stack[k]));
                proof {
                    assert(cycle@ =~= c0.push(cycle@[c0.len() as int]));
                    assert(cycle@[c0.len() as int]@ == loading_stack@[k as int]@);
                    assert(views(cycle@) =~= views(c0).push(loading_stack@[k as int]@));
                    assert(views(cycle@) =~= views(loading_stack@).subrange(i as int, k + 1));
                }
                k = k + 1;
            }
            let ghost c1 = cycle@;
            cycle.push(owned(module));
            let n = cycle.len();
            let path = join_strings(&cycle, 0, n, " → ");
            proof {
                assert(views(cycle@) =~= views(c1).push(module@));
                assert(views(loading_stack@).subrange(i as int, loading_stack@.len() as int) =~= views(
                    loading_stack@,
                ).skip(i as int));
                assert(views(cycle@).subrange(0, n as int) =~= views(cycle@));
                assert(views(loading_stack@)[i as int] == module@);
            }
            return Some(InterpreterError::CircularDependencyDetected { cycle_path: path });
        }
        i = i + 1;
    }
    proof {
        if views(loading_stack@).contains(module@) {
            let j = choose|j: int| 0 <= j < views(loading_stack@).len() && views(loading_stack@)[j] == module@;
            assert(views(loading_stack@)[j] != module@);
        }
    }
    None
}

/// Starts loading `module`: a module whose load is still under way is the
/// cycle error; otherwise it joins the loading stack, and the stack's new
/// height is returned for `leave_module_load`.
pub fn enter_module_load(loading_stack: &mut Vec<String>, module: &str) -> (r: Result<usize, InterpreterError>)
    requires
        old(loading_stack)@.len() < usize::MAX,
    ensures
        match r {
            Ok(h) => !views(old(loading_stack)@).contains(module@) && final(loading_stack)@ == old(
                loading_stack,
            )@.push(final(loading_stack)@.last()) && final(loading_stack)@.last()@ == module@ && h
                == final(loading_stack)@.len(),
            Err(e) => *final(loading_stack) == *old(loading_stack) && views(old(loading_stack)@).contains(module@)
                && e is CircularDependencyDetected,
        },
{
    match loading_cycle(loading_stack, module) {
        Some(e) => Err(e),
        None => {
            loading_stack.push(owned(module));
            Ok(loading_stack.len())
        },
    }
}

/// Ends a load started at height `height`: the stack is cut back to what
/// it was before that load, if it still reaches that height.
pub fn leave_module_load(loading_stack: &mut Vec<String>, height: usize)
    requires
        height >= 1,
    ensures
        final(loading_stack)@ == if old(loading_stack)@.len() >= height {
            old(loading_stack)@.take(height - 1)
        } else {
            old(loading_stack)@
        },
{
    if loading_stack.len() >= height {
        loading_stack.truncate(height - 1);
    }
}

/// The memory estimates of the cached modules, summed.
pub open spec fn cached_memory(entries: Seq<(String, ModuleCacheEntry)>) -> int
    decreases entries.len(),
{
    if entries.len() == 0 {
        0
    } else {
        cached_memory(entries.drop_last()) + entries.last().1.memory_size
    }
}

/// A prefix of the cache takes no more memory than the whole.
proof fn lemma_cached_memory_prefix(entries: Seq<(String, ModuleCacheEntry)>, k: int)
    requires
        0 <= k <= entries.len(),
    ensures
        cached_memory(entries.take(k)) <= cached_memory(entries),
    decreases entries.len(),
{
    if k < entries.len() {
        assert(entries.drop_last().take(k) =~= entries.take(k));
        lemma_cached_memory_prefix(entries.drop_last(), k);
    } else {
        assert(entries.take(k) =~= entries);
    }
}

/// The number of names listed over all the lists of a graph.
fn total_listed(g: &StringMap<Vec<String>>) -> (n: usize)
    requires
        all_listed(g.entries()).len() <= usize::MAX,
    ensures
        n == all_listed(g.entries()).len(),
{
    let mut n: usize = 0;
    let mut i: usize = 0;
    while i < g.len()
        invariant
            i <= g.entries().len(),
            n == all_listed(g.entries().take(i as int)).len(),
            all_listed(g.entries()).len() <= usize::MAX,
        decreases g.entries().len() - i,
    {
        proof {
            let t = g.entries().take(i + 1);
            assert(t.drop_last() =~= g.entries().take(i as int));
            crate::module_cache::lemma_all_listed_prefix(g.entries(), i + 1);
        }
        n = n + g.value_at(i).len();
        i = i + 1;
    }
    proof {
        assert(g.entries().take(g.entries().len() as int) =~= g.entries());
    }
    n
}

/// The names of a graph form a finite set.
proof fn lemma_graph_names_finite(g: StringMap<Vec<String>>)
    ensures
        graph_names(g).finite(),
{
    vstd::seq_lib::seq_to_set_is_finite(g.spec_keys() + all_listed(g.entries()));
}

} // verus!
