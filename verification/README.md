# olang

Verified building blocks of the Olang interpreter, written in Verus: values
and operators, pattern matching, scopes, argument binding, the module cache
and its dependency graph, diagnostics and the analyses behind the optimizing
tiers. The public functions of `src/` carry `requires`/`ensures` contracts
that Verus proves. The expression evaluator itself, function calls and
module loading are not part of this library.

## Layout

- `src/` — the verified library.
  - `ast`, `value`, `ops`, `patterns`, `range_iter`: values, operator
    semantics (checked integer arithmetic), pattern matching with bindings,
    overflow-free range iteration.
  - `environment`: scopes as layers of bindings over a persistent map
    (`im::HashMap`, reached through trusted wrappers).
  - `calls`, `traits`, `memory`: argument-to-parameter matching, trait
    bounds and method lookup, allocation accounting.
  - `module_cache`, `module_store`, `cache`, `resolution`: the dependency
    graph (cycle search, reachability, invalidation), the module cache,
    content hashes (`sha2`, through a trusted wrapper), where a module is
    looked for.
  - `errors`, `diagnostics`, `distance`: error values, their messages and
    "did you mean" suggestions by edit distance.
  - `loop_promo`, `jit`: analyses deciding what the optimizing tiers may take,
    and the plan and write-back of a promoted loop.
  - `par_for`: the items, item outcomes and reported failure of `par for`.
  - `spawn_registry`: the bookkeeping of spawned tasks and joins.
- `tests/` — ordinary Rust tests of the library.
- `app/` — the host side: files, clock, threads, floating point, and copies
  of the error types with the standard error traits.
