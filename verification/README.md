# symbol_liveness

Reachability for recursively referenced function declarations in a
JavaScript minifier. Reference counting removes an unused declaration once
its last reference disappears, but it cannot remove `function a() { b() }
function b() { a() }`: each function keeps the other's count above zero. This
library answers the missing question — can code that runs reach a function
declaration? — and proves its answer with Verus.

## Layout

- `src/scoping.rs` — `ScopingFacts`, the semantic model the analysis reads
  (scope tree, symbol table, resolved references) as plain indices, with its
  well-formedness predicate and an executable test of it.
- `src/graph.rs` — the function graph: candidates, the scope-to-function
  table, ownership of references, and the analysis with its worklist
  propagation. The specification functions (`analysis_roots`,
  `analysis_edges`, `analysis_dead`, …) say what each analysis publishes.
- `src/reachability.rs` — `SymbolReachability`: external observability plus
  the optional graph, with an abstract view.
- `src/hooks.rs` — the entry points a compressor calls: function and export
  registration while normalizing, the dead-reference gate, and the analysis
  between passes.
- `src/laws.rs` — the properties every analysis and registration keeps:
  published dead functions are referenced only from dead code, analysis only
  shrinks the candidates, repeated analysis of settled facts keeps the dead
  set and the candidates, published deadness survives deleting references
  along any sequence of analyses, observability only grows along any
  sequence of calls, dead functions stay hidden candidates, registration
  admits exactly the eligible declarations, pruning unrelated references
  changes nothing.
- `src/arena.rs`, `src/ids.rs`, `src/flags.rs` — the trusted specifications
  of the `oxc_allocator` bit sets and arena vectors, the `oxc_index` scope
  table, and the `oxc_syntax` flag queries the analysis calls.
- `app/` — reads `ScopingFacts` and the registration facts out of the
  `oxc_semantic` model and `oxc_ast` nodes, and runs the debug sweep over the
  program.
- `tests/` — the compressor's removal scenarios decided by the analysis on
  parsed sources, and small hand-written models.
