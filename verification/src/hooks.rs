//! The entry points the compressor calls: registration while normalizing,
//! and the analysis between passes.
use crate::arena::{bitset_ones, members};
use crate::flags::{is_type_only_reference, reference_flags_is_type_only};
use crate::reachability::{
    after_registration, analyzed, CompressOptions, CompressOptionsUnused, FunctionFacts,
    ModuleKind, ReachabilityView, SymbolReachability,
};
use crate::scoping::ScopingFacts;
use oxc_allocator::{Allocator, BitSet};
use vstd::prelude::*;

verus! {

/// The compressor state the analysis reads and keeps.
pub struct MinifierState<'a> {
    /// The compressor options.
    pub options: CompressOptions,
    /// How the source binds its top level.
    pub source_type: ModuleKind,
    /// The analysis, when the source or the options call for it.
    pub symbol_reachability: Option<SymbolReachability<'a>>,
    /// The references that this pass deleted.
    pub dead_refs: BitSet<'a>,
}

/// The traversal context of the compressor.
pub struct TraverseCtx<'a> {
    /// The compressor state.
    pub state: MinifierState<'a>,
    /// The settled semantic facts of the program.
    pub scoping: ScopingFacts,
    /// The arena of the program.
    pub allocator: &'a Allocator,
}

/// One specifier of an `export { .. }` list.
#[derive(Clone, Copy)]
pub struct ExportSpecifierFacts {
    /// `export { type x }`.
    pub is_type: bool,
    /// The reference of the local name, when the local name is an identifier
    /// reference that semantic analysis resolved to a reference id.
    pub local_reference: Option<usize>,
}

/// An `export` declaration with a name list or an inner declaration.
pub struct NamedExportFacts {
    /// `export type ..`.
    pub is_type: bool,
    /// For an inner declaration, the symbol of each name it binds.
    pub declaration: Option<Vec<Option<usize>>>,
    /// `export { .. } from '..'`.
    pub has_source: bool,
    /// The specifiers of the name list.
    pub specifiers: Vec<ExportSpecifierFacts>,
}

/// What an `export default` exports.
#[derive(Clone, Copy)]
pub enum ExportDefaultDeclarationKind {
    /// A function declaration, with the symbol of its name if it has one.
    FunctionDeclaration(Option<usize>),
    /// A class declaration, with the symbol of its name if it has one.
    ClassDeclaration(Option<usize>),
    /// An expression: its value is exported, not a binding.
    Expression,
}

/// An `export default` declaration.
#[derive(Clone, Copy)]
pub struct ExportDefaultFacts {
    /// What it exports.
    pub declaration: ExportDefaultDeclarationKind,
}

/// The symbol a specifier exports: its local name's symbol, unless the
/// specifier or the reference is type-only.
pub open spec fn specifier_export(specifier: ExportSpecifierFacts, scoping: ScopingFacts) -> Option<usize> {
    if specifier.is_type {
        None
    } else {
        match specifier.local_reference {
            None => None,
            Some(reference) => if is_type_only_reference(scoping.reference_flags@[reference as int]) {
                None
            } else {
                scoping.reference_symbols@[reference as int]
            },
        }
    }
}

/// The names a non-type inner declaration of a named export binds.
pub open spec fn declared_export_symbols(declaration: NamedExportFacts) -> Set<usize> {
    if declaration.is_type {
        Set::empty()
    } else {
        match declaration.declaration {
            Some(names) => Set::new(|symbol: usize| exists|i: int| 0 <= i < names@.len() && #[trigger] names@[i] == Some(symbol)),
            None => Set::empty(),
        }
    }
}

/// The symbols a local, non-type name list exports.
pub open spec fn listed_export_symbols(declaration: NamedExportFacts, scoping: ScopingFacts) -> Set<usize> {
    if declaration.has_source || declaration.is_type {
        Set::empty()
    } else {
        Set::new(
            |symbol: usize|
                exists|i: int|
                    0 <= i < declaration.specifiers@.len() && #[trigger] specifier_export(declaration.specifiers@[i], scoping)
                        == Some(symbol),
        )
    }
}

/// The runtime bindings a named export exposes.
pub open spec fn named_export_symbols(declaration: NamedExportFacts, scoping: ScopingFacts) -> Set<usize> {
    declared_export_symbols(declaration).union(listed_export_symbols(declaration, scoping))
}

/// The local binding a default export exposes: the name of a function or
/// class declaration. `export default identifier` exports the evaluated
/// value, not later writes to the binding.
pub open spec fn default_export_symbol(declaration: ExportDefaultFacts) -> Option<usize> {
    match declaration.declaration {
        ExportDefaultDeclarationKind::FunctionDeclaration(symbol) => symbol,
        ExportDefaultDeclarationKind::ClassDeclaration(symbol) => symbol,
        ExportDefaultDeclarationKind::Expression => None,
    }
}

/// The context is ready for the analysis hooks: the facts are consistent and
/// the analysis, if any, is sized for them.
pub open spec fn ready(ctx: TraverseCtx) -> bool {
    &&& ctx.scoping.wf()
    &&& ctx.state.symbol_reachability matches Some(reachability) ==> reachability.wf() && reachability.sized_for(ctx.scoping)
}

/// Normalize hook: registers a function declaration as a potential graph
/// candidate.
pub fn register_function(function: &FunctionFacts, ctx: &mut TraverseCtx)
    requires
        ready(*old(ctx)),
        function.symbol_id matches Some(symbol) ==> symbol < old(ctx).scoping.symbol_count(),
        function.scope_id matches Some(scope) ==> scope < old(ctx).scoping.scope_count(),
    ensures
        ready(*final(ctx)),
        final(ctx).scoping == old(ctx).scoping,
        final(ctx).state.options == old(ctx).state.options,
        final(ctx).state.source_type == old(ctx).state.source_type,
        final(ctx).state.dead_refs == old(ctx).state.dead_refs,
        final(ctx).allocator == old(ctx).allocator,
        final(ctx).state.symbol_reachability is Some <==> old(ctx).state.symbol_reachability is Some,
        old(ctx).state.symbol_reachability matches Some(before) ==> final(ctx).state.symbol_reachability.unwrap()@ == (
        if function.is_declaration && old(ctx).state.options.unused != CompressOptionsUnused::Keep {
            after_registration(before@, *function, old(ctx).state.source_type, old(ctx).scoping)
        } else {
            before@
        }),
{
    if !function.is_declaration {
        return;
    }
    if ctx.state.options.unused == CompressOptionsUnused::Keep {
        return;
    }
    let allocator = ctx.allocator;
    let source_type = ctx.state.source_type;
    match &mut ctx.state.symbol_reachability {
        Some(reachability) => {
            reachability.register_function(function, source_type, &ctx.scoping, allocator);
        },
        None => {},
    }
}

/// Normalize hook: records the runtime bindings a named export exposes.
pub fn register_named_export(declaration: &NamedExportFacts, ctx: &mut TraverseCtx)
    requires
        ready(*old(ctx)),
        declaration.declaration matches Some(names) ==> forall|i: int|
            0 <= i < names@.len() && #[trigger] names@[i] is Some ==> names@[i].unwrap() < old(ctx).scoping.symbol_count(),
        forall|i: int|
            0 <= i < declaration.specifiers@.len() && #[trigger] declaration.specifiers@[i].local_reference is Some
                ==> declaration.specifiers@[i].local_reference.unwrap() < old(ctx).scoping.reference_count(),
    ensures
        ready(*final(ctx)),
        final(ctx).scoping == old(ctx).scoping,
        final(ctx).state.options == old(ctx).state.options,
        final(ctx).state.source_type == old(ctx).state.source_type,
        final(ctx).state.dead_refs == old(ctx).state.dead_refs,
        final(ctx).allocator == old(ctx).allocator,
        final(ctx).state.symbol_reachability is Some <==> old(ctx).state.symbol_reachability is Some,
        old(ctx).state.symbol_reachability matches Some(before) ==> final(ctx).state.symbol_reachability.unwrap()@ == (
        ReachabilityView {
            observable: before@.observable.union(named_export_symbols(*declaration, old(ctx).scoping)),
            ..before@
        }),
{
    let ghost scoping0 = ctx.scoping;
    let scoping = &ctx.scoping;
    let reachability = match &mut ctx.state.symbol_reachability {
        Some(reachability) => reachability,
        None => {
            return;
        },
    };
    let ghost view0 = reachability@;
    if !declaration.is_type {
        match &declaration.declaration {
            Some(names) => {
                let mut i: usize = 0;
                assert(reachability@ == (ReachabilityView {
                    observable: view0.observable.union(Set::new(|symbol: usize| exists|k: int|
                        0 <= k < i && #[trigger] names@[k] == Some(symbol))),
                    ..view0
                })) by {
                    assert(view0.observable.union(Set::new(|symbol: usize| exists|k: int|
                        0 <= k < i && #[trigger] names@[k] == Some(symbol))) =~= view0.observable);
                }
                while i < names.len()
                    invariant
                        reachability.wf(),
                        reachability.sized_for(scoping0),
                        view0.observable_capacity == scoping0.symbol_count(),
                        0 <= i <= names@.len(),
                        forall|k: int| 0 <= k < names@.len() && #[trigger] names@[k] is Some
                            ==> names@[k].unwrap() < scoping0.symbol_count(),
                        reachability@ == (ReachabilityView {
                            observable: view0.observable.union(Set::new(|symbol: usize| exists|k: int|
                                0 <= k < i && #[trigger] names@[k] == Some(symbol))),
                            ..view0
                        }),
                    decreases names@.len() - i,
                {
                    let ghost before = reachability@.observable;
                    match names[i] {
                        Some(symbol_id) => reachability.mark_externally_observable(symbol_id),
                        None => {},
                    }
                    proof {
                        assert(reachability@.observable =~= view0.observable.union(Set::new(|symbol: usize| exists|k: int|
                            0 <= k < i + 1 && #[trigger] names@[k] == Some(symbol))));
                    }
                    i = i + 1;
                }
                proof {
                    assert(reachability@.observable =~= view0.observable.union(declared_export_symbols(*declaration)));
                }
            },
            None => {
                assert(view0.observable =~= view0.observable.union(declared_export_symbols(*declaration)));
            },
        }
    } else {
        assert(view0.observable =~= view0.observable.union(declared_export_symbols(*declaration)));
    }
    let ghost view1 = reachability@;
    if declaration.has_source || declaration.is_type {
        assert(view1.observable =~= view0.observable.union(named_export_symbols(*declaration, scoping0)));
        return;
    }
    let mut i: usize = 0;
    assert(reachability@ == (ReachabilityView {
        observable: view1.observable.union(Set::new(|symbol: usize| exists|k: int|
            0 <= k < i && #[trigger] specifier_export(declaration.specifiers@[k], scoping0) == Some(symbol))),
        ..view1
    })) by {
        assert(view1.observable.union(Set::new(|symbol: usize| exists|k: int|
            0 <= k < i && #[trigger] specifier_export(declaration.specifiers@[k], scoping0) == Some(symbol))) =~= view1.observable);
    }
    while i < declaration.specifiers.len()
        invariant
            reachability.wf(),
            reachability.sized_for(scoping0),
            scoping0.wf(),
            *scoping == scoping0,
            view1.observable_capacity == scoping0.symbol_count(),
            0 <= i <= declaration.specifiers@.len(),
            forall|k: int| 0 <= k < declaration.specifiers@.len() && #[trigger] declaration.specifiers@[k].local_reference is Some
                ==> declaration.specifiers@[k].local_reference.unwrap() < scoping0.reference_count(),
            reachability@ == (ReachabilityView {
                observable: view1.observable.union(Set::new(|symbol: usize| exists|k: int|
                    0 <= k < i && #[trigger] specifier_export(declaration.specifiers@[k], scoping0) == Some(symbol))),
                ..view1
            }),
        decreases declaration.specifiers@.len() - i,
    {
        let specifier = declaration.specifiers[i];
        let ghost before = reachability@.observable;
        let symbol_id = if specifier.is_type {
            None
        } else {
            match specifier.local_reference {
                Some(reference_id) => if !reference_flags_is_type_only(scoping.reference_flags(reference_id)) {
                    scoping.reference_symbol_id(reference_id)
                } else {
                    None
                },
                None => None,
            }
        };
        assert(symbol_id == specifier_export(declaration.specifiers@[i as int], scoping0));
        match symbol_id {
            Some(symbol_id) => reachability.mark_externally_observable(symbol_id),
            None => {},
        }
        proof {
            assert(reachability@.observable =~= view1.observable.union(Set::new(|symbol: usize| exists|k: int|
                0 <= k < i + 1 && #[trigger] specifier_export(declaration.specifiers@[k], scoping0) == Some(symbol))));
        }
        i = i + 1;
    }
    proof {
        assert(reachability@.observable =~= view0.observable.union(named_export_symbols(*declaration, scoping0)));
    }
}

/// Normalize hook: records the local binding of a named default function or
/// class declaration.
pub fn register_default_export(declaration: &ExportDefaultFacts, ctx: &mut TraverseCtx)
    requires
        ready(*old(ctx)),
        default_export_symbol(*declaration) matches Some(symbol) ==> symbol < old(ctx).scoping.symbol_count(),
    ensures
        ready(*final(ctx)),
        final(ctx).scoping == old(ctx).scoping,
        final(ctx).state.options == old(ctx).state.options,
        final(ctx).state.source_type == old(ctx).state.source_type,
        final(ctx).state.dead_refs == old(ctx).state.dead_refs,
        final(ctx).allocator == old(ctx).allocator,
        final(ctx).state.symbol_reachability is Some <==> old(ctx).state.symbol_reachability is Some,
        old(ctx).state.symbol_reachability matches Some(before) ==> final(ctx).state.symbol_reachability.unwrap()@ == (
        match default_export_symbol(*declaration) {
            Some(symbol) => ReachabilityView { observable: before@.observable.insert(symbol), ..before@ },
            None => before@,
        }),
{
    let symbol_id = match declaration.declaration {
        ExportDefaultDeclarationKind::FunctionDeclaration(symbol_id) => symbol_id,
        ExportDefaultDeclarationKind::ClassDeclaration(symbol_id) => symbol_id,
        ExportDefaultDeclarationKind::Expression => None,
    };
    match symbol_id {
        Some(symbol_id) => match &mut ctx.state.symbol_reachability {
            Some(reachability) => reachability.mark_externally_observable(symbol_id),
            None => {},
        },
        None => {},
    }
}

/// `reference` resolves to a function declaration still under analysis.
pub open spec fn reference_hits_candidate(view: ReachabilityView, scoping: ScopingFacts, reference: usize) -> bool {
    match scoping.reference_symbols@[reference as int] {
        Some(symbol) => match view.functions {
            Some(graph) => graph.candidates.contains(symbol),
            None => false,
        },
        None => false,
    }
}

/// Some reference in `deleted` resolves to a function declaration still
/// under analysis.
pub open spec fn deletion_hits_candidate(view: ReachabilityView, scoping: ScopingFacts, deleted: Set<usize>) -> bool {
    exists|reference: usize| #[trigger] deleted.contains(reference) && reference_hits_candidate(view, scoping, reference)
}

/// Whether the references this pass deleted can change an input of the
/// analysis: some of them resolved to a candidate.
pub fn dead_references_affect_analysis(ctx: &TraverseCtx) -> (affects: bool)
    requires
        ready(*ctx),
        forall|reference: usize| #[trigger] members(ctx.state.dead_refs).contains(reference)
            ==> reference < ctx.scoping.reference_count(),
    ensures
        affects == (ctx.state.symbol_reachability matches Some(reachability) && deletion_hits_candidate(
            reachability@,
            ctx.scoping,
            members(ctx.state.dead_refs),
        )),
{
    let reachability = match &ctx.state.symbol_reachability {
        Some(reachability) => reachability,
        None => {
            return false;
        },
    };
    let dead_refs = bitset_ones(&ctx.state.dead_refs);
    let mut i: usize = 0;
    while i < dead_refs.len()
        invariant
            ready(*ctx),
            ctx.state.symbol_reachability == Some(*reachability),
            0 <= i <= dead_refs@.len(),
            forall|bit: usize| dead_refs@.contains(bit) <==> members(ctx.state.dead_refs).contains(bit),
            forall|reference: usize| #[trigger] members(ctx.state.dead_refs).contains(reference)
                ==> reference < ctx.scoping.reference_count(),
            forall|k: int| 0 <= k < i ==> !#[trigger] reference_hits_candidate(reachability@, ctx.scoping, dead_refs@[k]),
        decreases dead_refs@.len() - i,
    {
        let bit = dead_refs[i];
        proof {
            assert(dead_refs@.contains(bit));
        }
        match ctx.scoping.reference_symbol_id(bit) {
            Some(symbol_id) => {
                if reachability.contains_candidate(symbol_id) {
                    assert(reference_hits_candidate(reachability@, ctx.scoping, bit));
                    return true;
                }
            },
            None => {},
        }
        i = i + 1;
    }
    proof {
        assert forall|reference: usize| #[trigger] members(ctx.state.dead_refs).contains(reference) implies
            !reference_hits_candidate(reachability@, ctx.scoping, reference) by {
            assert(dead_refs@.contains(reference));
            let k = choose|k: int| 0 <= k < dead_refs@.len() && dead_refs@[k] == reference;
            assert(!reference_hits_candidate(reachability@, ctx.scoping, dead_refs@[k]));
        }
    }
    false
}

/// Analyzes the settled reference lists, when asked to, and publishes the
/// next dead set; reports whether some function became dead that was not
/// before.
pub fn analyze(ctx: &mut TraverseCtx, recompute: bool) -> (found_new_dead: bool)
    requires
        old(ctx).scoping.wf(),
        old(ctx).state.symbol_reachability matches Some(reachability) ==> reachability.wf() && (
        reachability@.functions matches Some(graph) ==> graph.capacity <= old(ctx).scoping.symbol_count()),
    ensures
        final(ctx).scoping == old(ctx).scoping,
        final(ctx).state.options == old(ctx).state.options,
        final(ctx).state.source_type == old(ctx).state.source_type,
        final(ctx).state.dead_refs == old(ctx).state.dead_refs,
        final(ctx).allocator == old(ctx).allocator,
        final(ctx).state.symbol_reachability is Some <==> old(ctx).state.symbol_reachability is Some,
        final(ctx).state.symbol_reachability matches Some(reachability) ==> reachability.wf(),
        !recompute ==> !found_new_dead && final(ctx).state.symbol_reachability == old(ctx).state.symbol_reachability,
        old(ctx).state.symbol_reachability is None ==> !found_new_dead,
        recompute ==> (old(ctx).state.symbol_reachability matches Some(before) ==> analyzed(
            before@,
            final(ctx).state.symbol_reachability.unwrap()@,
            old(ctx).scoping,
            found_new_dead,
        )),
{
    if !recompute {
        return false;
    }
    let scoping = &ctx.scoping;
    match &mut ctx.state.symbol_reachability {
        Some(reachability) => reachability.analyze(scoping),
        None => false,
    }
}

} // verus!
