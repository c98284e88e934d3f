//! Program-wide symbol facts: which bindings code outside the program can
//! observe, plus the optional recursive-function graph.
use crate::arena::{bitset_bits, bitset_capacity, bitset_capacity_of, bitset_contains, bitset_new, bitset_set, bits_bounded, members};
use crate::flags::{has_direct_eval, is_strict_scope, is_var_scope, scope_flags_is_strict_mode, scope_flags_is_var};
use crate::graph::{analysis_dead, remaining_candidates, FunctionGraph};
use crate::scoping::{id_space_limit, ScopingFacts};
use oxc_allocator::{Allocator, BitSet};
use vstd::prelude::*;

verus! {

/// How a source file binds its top level (`oxc_span::ModuleKind`).
#[derive(Clone, Copy, PartialEq, Eq, Structural)]
pub enum ModuleKind {
    /// A classic script: its top-level bindings are visible to later scripts.
    Script,
    /// An ES module.
    Module,
    /// Either, decided by the syntax found.
    Unambiguous,
    /// A CommonJS module, wrapped in a function at run time.
    CommonJS,
}

/// What the compressor does with unused declarations.
#[derive(Clone, Copy, PartialEq, Eq, Structural)]
pub enum CompressOptionsUnused {
    /// Remove them.
    Remove,
    /// Remove them, but keep assignments to them.
    KeepAssign,
    /// Keep them.
    Keep,
}

/// The compressor options the analysis reads.
#[derive(Clone, Copy)]
pub struct CompressOptions {
    /// What to do with unused declarations.
    pub unused: CompressOptionsUnused,
}

/// A function node as registration reads it.
#[derive(Clone, Copy)]
pub struct FunctionFacts {
    /// The function is a declaration, not an expression.
    pub is_declaration: bool,
    /// The symbol its name binds, if it has a resolved name.
    pub symbol_id: Option<usize>,
    /// The scope of its body, once semantic analysis has set it.
    pub scope_id: Option<usize>,
    /// The function is `async`.
    pub is_async: bool,
    /// The function is a generator.
    pub is_generator: bool,
}

/// The state of the function graph.
pub struct FunctionGraphView {
    /// The registered function declarations still under analysis.
    pub candidates: Set<usize>,
    /// The function declarations the last analysis found unreachable.
    pub dead: Set<usize>,
    /// For each scope, the function declaration registered for it.
    pub owners: Seq<Option<usize>>,
    /// The number of symbols the graph was created for.
    pub capacity: usize,
}

/// The state of the whole analysis.
pub struct ReachabilityView {
    /// The bindings that code outside the program can observe.
    pub observable: Set<usize>,
    /// The number of symbols the observable set was created for.
    pub observable_capacity: usize,
    /// The function graph, once a function declaration has been registered.
    pub functions: Option<FunctionGraphView>,
}

/// Whether registration admits `function` into the graph or the observable
/// set: it binds a symbol, has a body scope, and is async, a generator, or
/// bound in a `var` or strict-mode scope. (An Annex B block function in
/// sloppy code may run with no resolved reference to its own symbol.)
pub open spec fn registrable(function: FunctionFacts, scoping: ScopingFacts) -> bool {
    &&& function.symbol_id is Some
    &&& function.scope_id is Some
    &&& {
        let flags = scoping.scope_flags@[scoping.symbol_scopes@[function.symbol_id.unwrap() as int] as int];
        function.is_async || function.is_generator || is_var_scope(flags) || is_strict_scope(flags)
    }
}

/// A registrable function bound in the root scope of a script: later
/// scripts can observe it.
pub open spec fn script_root_function(function: FunctionFacts, source_type: ModuleKind, scoping: ScopingFacts) -> bool {
    source_type == ModuleKind::Script && scoping.symbol_scopes@[function.symbol_id.unwrap() as int] == 0
}

/// The symbols declared in the root scope of `scoping`.
pub open spec fn root_symbols(scoping: ScopingFacts) -> Set<usize> {
    Set::new(|symbol: usize| symbol < scoping.symbol_count() && scoping.symbol_scopes@[symbol as int] == 0)
}

/// Stable program-wide symbol facts plus the optional recursive-function graph.
pub struct SymbolReachability<'a> {
    externally_observable: BitSet<'a>,
    functions: Option<FunctionGraph<'a>>,
}

impl<'a> View for SymbolReachability<'a> {
    type V = ReachabilityView;

    closed spec fn view(&self) -> ReachabilityView {
        ReachabilityView {
            observable: members(self.externally_observable),
            observable_capacity: bitset_capacity(self.externally_observable),
            functions: match self.functions {
                Some(graph) => Some(
                    FunctionGraphView {
                        candidates: graph.candidate_set(),
                        dead: graph.dead_set(),
                        owners: graph.owners(),
                        capacity: graph.capacity(),
                    },
                ),
                None => None,
            },
        }
    }
}

impl<'a> SymbolReachability<'a> {
    /// The bit sets are consistent and sized within the analysis's limits.
    pub closed spec fn wf(&self) -> bool {
        &&& bits_bounded(self.externally_observable)
        &&& bitset_capacity(self.externally_observable) < id_space_limit()
        &&& match self.functions {
            Some(graph) => graph.wf(),
            None => true,
        }
    }

    /// Every table was sized for the symbols and scopes of `scoping`.
    pub open spec fn sized_for(&self, scoping: ScopingFacts) -> bool {
        &&& self@.observable_capacity == scoping.symbol_count()
        &&& match self@.functions {
            Some(graph) => graph.capacity == scoping.symbol_count() && graph.owners.len() == scoping.scope_count(),
            None => true,
        }
    }

    /// The facts for a program, or `None` when neither export observability
    /// nor the function graph is needed: a non-module source whose options
    /// keep unused declarations. In a script, every root-scope binding is
    /// observable from the start.
    pub fn new(
        source_type: ModuleKind,
        options: &CompressOptions,
        scoping: &ScopingFacts,
        allocator: &'a Allocator,
    ) -> (reachability: Option<Self>)
        requires
            scoping.wf(),
        ensures
            reachability is None <==> (source_type != ModuleKind::Module && options.unused == CompressOptionsUnused::Keep),
            reachability matches Some(r) ==> {
                &&& r.wf()
                &&& r.sized_for(*scoping)
                &&& r@.functions is None
                &&& r@.observable == (if source_type == ModuleKind::Script {
                    root_symbols(*scoping)
                } else {
                    Set::<usize>::empty()
                })
            },
    {
        let functions_enabled = options.unused != CompressOptionsUnused::Keep;
        if source_type != ModuleKind::Module && !functions_enabled {
            return None;
        }
        let symbols_len = scoping.symbols_len();
        let mut externally_observable = bitset_new(symbols_len, allocator);
        if source_type == ModuleKind::Script {
            let root_scope_id = scoping.root_scope_id();
            let mut symbol_id: usize = 0;
            while symbol_id < symbols_len
                invariant
                    scoping.wf(),
                    symbols_len == scoping.symbol_count(),
                    root_scope_id == 0,
                    symbol_id <= symbols_len,
                    bitset_capacity(externally_observable) == symbols_len,
                    forall|s: usize| #[trigger] bitset_bits(externally_observable).contains(s) <==> (s < symbol_id
                        && scoping.symbol_scopes@[s as int] == 0),
                decreases symbols_len - symbol_id,
            {
                if scoping.symbol_scope_id(symbol_id) == root_scope_id {
                    bitset_set(&mut externally_observable, symbol_id);
                }
                symbol_id = symbol_id + 1;
            }
            assert(members(externally_observable) =~= root_symbols(*scoping));
        } else {
            assert(members(externally_observable) =~= Set::<usize>::empty());
        }
        Some(Self { externally_observable, functions: None })
    }

    /// Whether every table was sized for `scoping` (`sized_for`).
    pub fn is_sized_for(&self, scoping: &ScopingFacts) -> (sized: bool)
        ensures
            sized == self.sized_for(*scoping),
    {
        if bitset_capacity_of(&self.externally_observable) != scoping.symbols_len() {
            return false;
        }
        match &self.functions {
            Some(graph) => graph.symbol_capacity() == scoping.symbols_len() && graph.scope_capacity() == scoping.scopes_len(),
            None => true,
        }
    }

    /// Whether the graph, if any, covers no more symbols than `scoping` has:
    /// what `analyze` needs of facts refreshed after later passes.
    pub fn fits_within(&self, scoping: &ScopingFacts) -> (fits: bool)
        ensures
            fits == (self@.functions matches Some(graph) ==> graph.capacity <= scoping.symbol_count()),
    {
        match &self.functions {
            Some(graph) => graph.symbol_capacity() <= scoping.symbols_len(),
            None => true,
        }
    }

    /// Whether code outside the program can observe `symbol_id`.
    pub fn is_externally_observable(&self, symbol_id: usize) -> (observable: bool)
        ensures
            observable == self@.observable.contains(symbol_id),
    {
        bitset_contains(&self.externally_observable, symbol_id)
    }

    /// Whether the last analysis found the function declaration `symbol_id`
    /// unreachable.
    pub fn function_is_dead(&self, symbol_id: usize) -> (dead: bool)
        ensures
            dead == (self@.functions matches Some(graph) && graph.dead.contains(symbol_id)),
    {
        match &self.functions {
            Some(graph) => graph.is_dead(symbol_id),
            None => false,
        }
    }

    /// Records that code outside the program can observe `symbol_id`.
    pub(crate) fn mark_externally_observable(&mut self, symbol_id: usize)
        requires
            old(self).wf(),
            symbol_id < old(self)@.observable_capacity,
        ensures
            final(self).wf(),
            final(self)@ == (ReachabilityView {
                observable: old(self)@.observable.insert(symbol_id),
                ..old(self)@
            }),
    {
        bitset_set(&mut self.externally_observable, symbol_id);
        assert(members(self.externally_observable) =~= members(old(self).externally_observable).insert(symbol_id));
    }

    /// Registers a function declaration: a script-root one becomes
    /// observable, any other registrable one becomes a graph candidate owning
    /// its body scope. The graph is created on first use.
    pub(crate) fn register_function(
        &mut self,
        function: &FunctionFacts,
        source_type: ModuleKind,
        scoping: &ScopingFacts,
        allocator: &'a Allocator,
    )
        requires
            old(self).wf(),
            old(self).sized_for(*scoping),
            scoping.wf(),
            function.symbol_id matches Some(symbol) ==> symbol < scoping.symbol_count(),
            function.scope_id matches Some(scope) ==> scope < scoping.scope_count(),
        ensures
            final(self).wf(),
            final(self).sized_for(*scoping),
            final(self)@ == after_registration(old(self)@, *function, source_type, *scoping),
    {
        let symbol_id = match function.symbol_id {
            Some(symbol_id) => symbol_id,
            None => {
                return;
            },
        };
        let scope_id = match function.scope_id {
            Some(scope_id) => scope_id,
            None => {
                return;
            },
        };
        let binding_scope_id = scoping.symbol_scope_id(symbol_id);
        let binding_scope_flags = scoping.scope_flags(binding_scope_id);
        if !function.is_async && !function.is_generator && !scope_flags_is_var(binding_scope_flags)
            && !scope_flags_is_strict_mode(binding_scope_flags) {
            return;
        }
        if source_type == ModuleKind::Script && binding_scope_id == scoping.root_scope_id() {
            self.mark_externally_observable(symbol_id);
            return;
        }
        if self.functions.is_none() {
            self.functions = Some(FunctionGraph::new(scoping, allocator));
        }
        match &mut self.functions {
            Some(graph) => {
                graph.register(scope_id, symbol_id);
            },
            None => {},
        }
    }

    /// Recomputes the dead functions, when there is a graph; reports whether
    /// some function became dead that was not before.
    pub(crate) fn analyze(&mut self, scoping: &ScopingFacts) -> (found_new_dead: bool)
        requires
            old(self).wf(),
            scoping.wf(),
            old(self)@.functions matches Some(graph) ==> graph.capacity <= scoping.symbol_count(),
        ensures
            final(self).wf(),
            analyzed(old(self)@, final(self)@, *scoping, found_new_dead),
    {
        let found_new_dead = match &mut self.functions {
            Some(graph) => graph.analyze(scoping, &self.externally_observable),
            None => false,
        };
        proof {
            if old(self)@.functions is Some && !has_direct_eval(scoping.scope_flags@[0]) {
                let next = self@.functions.unwrap();
                let graph = old(self)@.functions.unwrap();
                assert(next.dead == analysis_dead(*scoping, graph.owners, graph.candidates, old(self)@.observable, graph.dead));
                assert(found_new_dead == exists|t: usize| #[trigger] next.dead.contains(t) && !graph.dead.contains(t));
            }
        }
        found_new_dead
    }

    /// Whether `symbol_id` is a function declaration still under analysis.
    pub(crate) fn contains_candidate(&self, symbol_id: usize) -> (candidate: bool)
        ensures
            candidate == (self@.functions matches Some(graph) && graph.candidates.contains(symbol_id)),
    {
        match &self.functions {
            Some(graph) => graph.is_candidate(symbol_id),
            None => false,
        }
    }

    /// The dead set of the last analysis, when there is a graph.
    pub fn dead_functions(&self) -> (dead: Option<&BitSet<'a>>)
        ensures
            dead is Some <==> self@.functions is Some,
            dead matches Some(set) ==> members(*set) == self@.functions.unwrap().dead,
    {
        match &self.functions {
            Some(graph) => Some(graph.dead_functions()),
            None => None,
        }
    }
}

/// The state after registering `function`: unchanged when it is not
/// registrable, observable when it is a script-root function, a graph
/// candidate otherwise.
pub open spec fn after_registration(
    view: ReachabilityView,
    function: FunctionFacts,
    source_type: ModuleKind,
    scoping: ScopingFacts,
) -> ReachabilityView {
    if !registrable(function, scoping) {
        view
    } else if script_root_function(function, source_type, scoping) {
        ReachabilityView { observable: view.observable.insert(function.symbol_id.unwrap()), ..view }
    } else {
        ReachabilityView {
            functions: Some(registered(view.functions, scoping, function.scope_id.unwrap(), function.symbol_id.unwrap())),
            ..view
        }
    }
}

/// The graph after registering `symbol` for `scope`, starting from `graph`
/// or, when there is none yet, from an empty graph for `scoping`.
pub open spec fn registered(graph: Option<FunctionGraphView>, scoping: ScopingFacts, scope: usize, symbol: usize) -> FunctionGraphView {
    let base = match graph {
        Some(graph) => graph,
        None => FunctionGraphView {
            candidates: Set::empty(),
            dead: Set::empty(),
            owners: Seq::new(scoping.scope_count(), |i: int| None::<usize>),
            capacity: scoping.symbol_count() as usize,
        },
    };
    FunctionGraphView {
        candidates: base.candidates.insert(symbol),
        owners: base.owners.update(scope as int, Some(symbol)),
        ..base
    }
}

/// `after` is the state once an analysis of `scoping` has run on `before`,
/// and `found_new_dead` its answer. Without a graph nothing changes; with a
/// direct `eval` in the program nothing is dead; otherwise the dropped
/// candidates leave and every remaining one that no walk from a root
/// reaches is dead.
pub open spec fn analyzed(before: ReachabilityView, after: ReachabilityView, scoping: ScopingFacts, found_new_dead: bool) -> bool {
    &&& after.observable == before.observable
    &&& after.observable_capacity == before.observable_capacity
    &&& match before.functions {
        None => after.functions is None && !found_new_dead,
        Some(graph) => after.functions matches Some(next) && {
            &&& next.owners == graph.owners
            &&& next.capacity == graph.capacity
            &&& if has_direct_eval(scoping.scope_flags@[0]) {
                &&& next.candidates == graph.candidates
                &&& next.dead == Set::<usize>::empty()
                &&& !found_new_dead
            } else {
                &&& next.candidates == remaining_candidates(scoping, graph.owners, graph.candidates, graph.dead)
                &&& next.dead == analysis_dead(scoping, graph.owners, graph.candidates, before.observable, graph.dead)
                &&& found_new_dead == exists|t: usize| #[trigger] next.dead.contains(t) && !graph.dead.contains(t)
            }
        },
    }
}

} // verus!
