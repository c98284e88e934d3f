//! The analysis on small hand-written semantic models.

use oxc_allocator::{Allocator, BitSet};
use symbol_liveness::hooks::{
    analyze, dead_references_affect_analysis, register_default_export, register_function,
    register_named_export, ExportDefaultDeclarationKind, ExportDefaultFacts, ExportSpecifierFacts,
    MinifierState, NamedExportFacts, TraverseCtx,
};
use symbol_liveness::reachability::{
    CompressOptions, CompressOptionsUnused, FunctionFacts, ModuleKind, SymbolReachability,
};
use symbol_liveness::scoping::ScopingFacts;

const STRICT: u16 = 0x1;
const TOP: u16 = 0x2;
const FUNCTION: u16 = 0x4;
const DIRECT_EVAL: u16 = 0x400;
const READ: u8 = 0x1;
const TYPE: u8 = 0x4;

/// A semantic model from its scopes `(parent, flags)`, the scope of each
/// symbol, and each reference `(scope, symbol, flags)`.
fn model(
    scopes: &[(Option<usize>, u16)],
    symbols: &[usize],
    references: &[(usize, Option<usize>, u8)],
) -> ScopingFacts {
    let mut resolved_references = vec![Vec::new(); symbols.len()];
    for (reference, &(_, symbol, _)) in references.iter().enumerate() {
        if let Some(symbol) = symbol {
            resolved_references[symbol].push(reference);
        }
    }
    ScopingFacts {
        scope_parents: scopes.iter().map(|scope| scope.0).collect(),
        scope_flags: scopes.iter().map(|scope| scope.1).collect(),
        symbol_scopes: symbols.to_vec(),
        resolved_references,
        reference_scopes: references.iter().map(|reference| reference.0).collect(),
        reference_symbols: references.iter().map(|reference| reference.1).collect(),
        reference_flags: references.iter().map(|reference| reference.2).collect(),
    }
}

fn context<'a>(
    facts: ScopingFacts,
    source_type: ModuleKind,
    unused: CompressOptionsUnused,
    allocator: &'a Allocator,
) -> TraverseCtx<'a> {
    assert!(facts.check_well_formed());
    let options = CompressOptions { unused };
    let symbol_reachability = SymbolReachability::new(source_type, &options, &facts, allocator);
    let dead_refs = BitSet::new_in(facts.reference_scopes.len(), allocator);
    TraverseCtx {
        state: MinifierState { options, source_type, symbol_reachability, dead_refs },
        scoping: facts,
        allocator,
    }
}

fn declaration(symbol: usize, scope: usize) -> FunctionFacts {
    FunctionFacts {
        is_declaration: true,
        symbol_id: Some(symbol),
        scope_id: Some(scope),
        is_async: false,
        is_generator: false,
    }
}

fn dead(ctx: &TraverseCtx<'_>) -> Vec<usize> {
    (0..ctx.scoping.symbol_scopes.len())
        .filter(|&symbol| ctx.state.symbol_reachability.as_ref().unwrap().function_is_dead(symbol))
        .collect()
}

/// `function f() { g() } function g() { f() } function h() { f() }` in a
/// module: scopes 1, 2, 3 are the bodies of f, g, h.
fn cycle_with_unused_caller() -> ScopingFacts {
    model(
        &[
            (None, TOP | STRICT),
            (Some(0), FUNCTION | STRICT),
            (Some(0), FUNCTION | STRICT),
            (Some(0), FUNCTION | STRICT),
        ],
        &[0, 0, 0],
        &[(1, Some(1), READ), (2, Some(0), READ), (3, Some(0), READ)],
    )
}

fn register_cycle(ctx: &mut TraverseCtx<'_>) {
    register_function(&declaration(0, 1), ctx);
    register_function(&declaration(1, 2), ctx);
    register_function(&declaration(2, 3), ctx);
}

#[test]
fn dead_functions_are_referenced_only_from_dead_code() {
    let allocator = Allocator::default();
    let mut ctx = context(cycle_with_unused_caller(), ModuleKind::Module, CompressOptionsUnused::Remove, &allocator);
    register_cycle(&mut ctx);
    assert!(analyze(&mut ctx, true));
    // f and g only reach each other; h, unreferenced, calls f but never runs.
    assert_eq!(dead(&ctx), vec![0, 1]);
    let reachability = ctx.state.symbol_reachability.as_ref().unwrap();
    assert!(!reachability.is_externally_observable(0));
    assert!(!reachability.is_externally_observable(1));
}

#[test]
fn repeated_analysis_of_settled_facts_finds_nothing_new() {
    let allocator = Allocator::default();
    let mut ctx = context(cycle_with_unused_caller(), ModuleKind::Module, CompressOptionsUnused::Remove, &allocator);
    register_cycle(&mut ctx);
    assert!(analyze(&mut ctx, true));
    assert!(!analyze(&mut ctx, true));
    assert_eq!(dead(&ctx), vec![0, 1]);
    assert!(!analyze(&mut ctx, false));
    assert_eq!(dead(&ctx), vec![0, 1]);
}

#[test]
fn observable_function_roots_its_cycle() {
    let allocator = Allocator::default();
    let mut ctx = context(cycle_with_unused_caller(), ModuleKind::Module, CompressOptionsUnused::Remove, &allocator);
    register_cycle(&mut ctx);
    let export_f = NamedExportFacts {
        is_type: false,
        declaration: Some(vec![Some(0)]),
        has_source: false,
        specifiers: Vec::new(),
    };
    register_named_export(&export_f, &mut ctx);
    assert!(ctx.state.symbol_reachability.as_ref().unwrap().is_externally_observable(0));
    assert!(!analyze(&mut ctx, true));
    assert_eq!(dead(&ctx), Vec::<usize>::new());
}

#[test]
fn used_caller_that_leaves_the_graph_roots_its_callees() {
    // `function h() { f() } h();` keeps f and g: h's only reference is at
    // the root, so h leaves the graph and its edge to f becomes a root.
    let mut facts = cycle_with_unused_caller();
    facts.reference_scopes.push(0);
    facts.reference_symbols.push(Some(2));
    facts.reference_flags.push(READ);
    facts.resolved_references[2].push(3);
    let allocator = Allocator::default();
    let mut ctx = context(facts, ModuleKind::Module, CompressOptionsUnused::Remove, &allocator);
    register_cycle(&mut ctx);
    assert!(!analyze(&mut ctx, true));
    assert_eq!(dead(&ctx), Vec::<usize>::new());
}

#[test]
fn direct_eval_clears_the_dead_set() {
    let allocator = Allocator::default();
    let mut ctx = context(cycle_with_unused_caller(), ModuleKind::Module, CompressOptionsUnused::Remove, &allocator);
    register_cycle(&mut ctx);
    assert!(analyze(&mut ctx, true));
    ctx.scoping.scope_flags[0] |= DIRECT_EVAL;
    assert!(!analyze(&mut ctx, true));
    assert_eq!(dead(&ctx), Vec::<usize>::new());
}

#[test]
fn owner_is_the_nearest_registered_function_scope() {
    // `function f() { { f() } }`: the call sits in a block inside f's body.
    let facts = model(
        &[(None, TOP | STRICT), (Some(0), FUNCTION | STRICT), (Some(1), STRICT)],
        &[0],
        &[(2, Some(0), READ)],
    );
    let allocator = Allocator::default();
    let mut ctx = context(facts, ModuleKind::Module, CompressOptionsUnused::Remove, &allocator);
    register_function(&declaration(0, 1), &mut ctx);
    assert!(analyze(&mut ctx, true));
    assert_eq!(dead(&ctx), vec![0]);
}

#[test]
fn script_root_functions_are_observable_not_candidates() {
    // A script: `function f() { f() }` at the root is visible to later scripts.
    let facts = model(&[(None, TOP), (Some(0), FUNCTION)], &[0], &[(1, Some(0), READ)]);
    let allocator = Allocator::default();
    let mut ctx = context(facts, ModuleKind::Script, CompressOptionsUnused::Remove, &allocator);
    assert!(ctx.state.symbol_reachability.as_ref().unwrap().is_externally_observable(0));
    register_function(&declaration(0, 1), &mut ctx);
    assert!(!analyze(&mut ctx, true));
    assert_eq!(dead(&ctx), Vec::<usize>::new());
}

#[test]
fn sloppy_block_functions_are_not_registered() {
    // In sloppy code, `{ function f() { f() } }` binds f in a block scope.
    let facts = model(
        &[(None, TOP), (Some(0), 0), (Some(1), FUNCTION)],
        &[1],
        &[(2, Some(0), READ)],
    );
    let allocator = Allocator::default();
    let mut ctx = context(facts, ModuleKind::CommonJS, CompressOptionsUnused::Remove, &allocator);
    register_function(&declaration(0, 2), &mut ctx);
    assert!(!analyze(&mut ctx, true));
    assert_eq!(dead(&ctx), Vec::<usize>::new());
    // An async one is registered: its alias write does not change that.
    let mut function = declaration(0, 2);
    function.is_async = true;
    register_function(&function, &mut ctx);
    assert!(analyze(&mut ctx, true));
    assert_eq!(dead(&ctx), vec![0]);
}

#[test]
fn keep_option_without_module_needs_no_analysis() {
    let facts = model(&[(None, TOP)], &[], &[]);
    let allocator = Allocator::default();
    let options = CompressOptions { unused: CompressOptionsUnused::Keep };
    assert!(SymbolReachability::new(ModuleKind::CommonJS, &options, &facts, &allocator).is_none());
    assert!(SymbolReachability::new(ModuleKind::Script, &options, &facts, &allocator).is_none());
    assert!(SymbolReachability::new(ModuleKind::Module, &options, &facts, &allocator).is_some());
    let options = CompressOptions { unused: CompressOptionsUnused::KeepAssign };
    assert!(SymbolReachability::new(ModuleKind::CommonJS, &options, &facts, &allocator).is_some());
}

#[test]
fn type_only_specifiers_expose_nothing() {
    // `export { a, type b }; export { c }` with a type-only reference to c.
    let facts = model(
        &[(None, TOP | STRICT)],
        &[0, 0, 0],
        &[(0, Some(0), READ), (0, Some(1), READ), (0, Some(2), TYPE)],
    );
    let allocator = Allocator::default();
    let mut ctx = context(facts, ModuleKind::Module, CompressOptionsUnused::Remove, &allocator);
    let list = NamedExportFacts {
        is_type: false,
        declaration: None,
        has_source: false,
        specifiers: vec![
            ExportSpecifierFacts { is_type: false, local_reference: Some(0) },
            ExportSpecifierFacts { is_type: true, local_reference: Some(1) },
            ExportSpecifierFacts { is_type: false, local_reference: Some(2) },
        ],
    };
    register_named_export(&list, &mut ctx);
    let reachability = ctx.state.symbol_reachability.as_ref().unwrap();
    assert!(reachability.is_externally_observable(0));
    assert!(!reachability.is_externally_observable(1));
    assert!(!reachability.is_externally_observable(2));
}

#[test]
fn re_exports_and_type_exports_expose_no_local_binding() {
    let facts = model(&[(None, TOP | STRICT)], &[0, 0], &[(0, Some(0), READ)]);
    let allocator = Allocator::default();
    let mut ctx = context(facts, ModuleKind::Module, CompressOptionsUnused::Remove, &allocator);
    let from = NamedExportFacts {
        is_type: false,
        declaration: None,
        has_source: true,
        specifiers: vec![ExportSpecifierFacts { is_type: false, local_reference: Some(0) }],
    };
    register_named_export(&from, &mut ctx);
    let type_declaration = NamedExportFacts {
        is_type: true,
        declaration: Some(vec![Some(1)]),
        has_source: false,
        specifiers: Vec::new(),
    };
    register_named_export(&type_declaration, &mut ctx);
    let reachability = ctx.state.symbol_reachability.as_ref().unwrap();
    assert!(!reachability.is_externally_observable(0));
    assert!(!reachability.is_externally_observable(1));
}

#[test]
fn default_exports_expose_named_declarations_only() {
    let facts = model(&[(None, TOP | STRICT)], &[0, 0, 0], &[]);
    let allocator = Allocator::default();
    let mut ctx = context(facts, ModuleKind::Module, CompressOptionsUnused::Remove, &allocator);
    let function = ExportDefaultFacts { declaration: ExportDefaultDeclarationKind::FunctionDeclaration(Some(0)) };
    let class = ExportDefaultFacts { declaration: ExportDefaultDeclarationKind::ClassDeclaration(Some(1)) };
    let value = ExportDefaultFacts { declaration: ExportDefaultDeclarationKind::Expression };
    let anonymous = ExportDefaultFacts { declaration: ExportDefaultDeclarationKind::FunctionDeclaration(None) };
    register_default_export(&function, &mut ctx);
    register_default_export(&class, &mut ctx);
    register_default_export(&value, &mut ctx);
    register_default_export(&anonymous, &mut ctx);
    let reachability = ctx.state.symbol_reachability.as_ref().unwrap();
    assert!(reachability.is_externally_observable(0));
    assert!(reachability.is_externally_observable(1));
    assert!(!reachability.is_externally_observable(2));
}

#[test]
fn only_deleted_references_to_candidates_affect_analysis() {
    // A module with `let x; function f() { f(); x }`: reference 1 is to x.
    let facts = model(
        &[(None, TOP | STRICT), (Some(0), FUNCTION | STRICT)],
        &[0, 0],
        &[(1, Some(0), READ), (1, Some(1), READ)],
    );
    let allocator = Allocator::default();
    let mut ctx = context(facts, ModuleKind::Module, CompressOptionsUnused::Remove, &allocator);
    register_function(&declaration(0, 1), &mut ctx);
    ctx.state.dead_refs.set_bit(1);
    assert!(!dead_references_affect_analysis(&ctx));
    ctx.state.dead_refs.set_bit(0);
    assert!(dead_references_affect_analysis(&ctx));
}

#[test]
fn functions_with_only_root_references_leave_the_graph() {
    // `function f() { g() } function g() {} f(); g();`
    let facts = model(
        &[(None, TOP | STRICT), (Some(0), FUNCTION | STRICT), (Some(0), FUNCTION | STRICT)],
        &[0, 0],
        &[(1, Some(1), READ), (0, Some(0), READ), (0, Some(1), READ)],
    );
    let allocator = Allocator::default();
    let mut ctx = context(facts, ModuleKind::Module, CompressOptionsUnused::Remove, &allocator);
    register_function(&declaration(0, 1), &mut ctx);
    register_function(&declaration(1, 2), &mut ctx);
    ctx.state.dead_refs.set_bit(1);
    assert!(dead_references_affect_analysis(&ctx));
    assert!(!analyze(&mut ctx, true));
    // f has only a root reference, so it is no longer a candidate: deleting
    // that reference no longer affects the analysis.
    let mut only_f = BitSet::new_in(3, &allocator);
    only_f.set_bit(1);
    ctx.state.dead_refs = only_f;
    assert!(!dead_references_affect_analysis(&ctx));
    assert_eq!(dead(&ctx), Vec::<usize>::new());
}

#[test]
fn malformed_facts_are_refused() {
    assert!(model(&[(None, TOP)], &[], &[]).check_well_formed());
    assert!(!model(&[], &[], &[]).check_well_formed());
    assert!(!model(&[(Some(3), TOP)], &[], &[]).check_well_formed());
    assert!(!model(&[(None, TOP)], &[1], &[]).check_well_formed());
    assert!(!model(&[(None, TOP)], &[0], &[(2, Some(0), READ)]).check_well_formed());
    let mut facts = model(&[(None, TOP)], &[0], &[(0, Some(0), READ)]);
    facts.resolved_references[0].push(7);
    assert!(!facts.check_well_formed());
    let mut facts = model(&[(None, TOP)], &[0], &[(0, Some(0), READ)]);
    facts.reference_symbols[0] = Some(4);
    assert!(!facts.check_well_formed());
}

#[test]
fn analysis_sizing_checks() {
    let facts = cycle_with_unused_caller();
    let allocator = Allocator::default();
    let mut ctx = context(facts, ModuleKind::Module, CompressOptionsUnused::Remove, &allocator);
    register_cycle(&mut ctx);
    let reachability = ctx.state.symbol_reachability.as_ref().unwrap();
    assert!(reachability.is_sized_for(&ctx.scoping));
    assert!(reachability.fits_within(&ctx.scoping));
    let fewer = model(&[(None, TOP | STRICT)], &[0], &[]);
    assert!(!reachability.is_sized_for(&fewer));
    assert!(!reachability.fits_within(&fewer));
    assert!(reachability.dead_functions().is_some());
}

#[test]
fn pruning_references_to_unregistered_symbols_keeps_analysis() {
    // `let x; function f() { f(); x } function g() { g() } x;`: deleting the
    // root read of x changes nothing the analysis reads.
    let facts = model(
        &[(None, TOP | STRICT), (Some(0), FUNCTION | STRICT), (Some(0), FUNCTION | STRICT)],
        &[0, 0, 0],
        &[(1, Some(0), READ), (1, Some(1), READ), (2, Some(2), READ), (0, Some(1), READ)],
    );
    let allocator = Allocator::default();
    let mut ctx = context(facts, ModuleKind::Module, CompressOptionsUnused::Remove, &allocator);
    register_function(&declaration(0, 1), &mut ctx);
    register_function(&declaration(2, 2), &mut ctx);
    assert!(analyze(&mut ctx, true));
    assert_eq!(dead(&ctx), vec![0, 2]);
    ctx.scoping.resolved_references[1].retain(|&reference| reference != 3);
    ctx.state.dead_refs.set_bit(3);
    assert!(!dead_references_affect_analysis(&ctx));
    assert!(!analyze(&mut ctx, true));
    assert_eq!(dead(&ctx), vec![0, 2]);
}

#[test]
fn pruning_the_last_call_of_a_dropped_function_is_not_reported() {
    // `function o() { f() } function f() { f() } o();`: o leaves the graph,
    // and its call roots f. Deleting `o()` is not reported as affecting the
    // analysis, although o is then count-dead and a new analysis drops f;
    // the compressor reports it once it deletes `f()` inside o.
    let facts = model(
        &[(None, TOP | STRICT), (Some(0), FUNCTION | STRICT), (Some(0), FUNCTION | STRICT)],
        &[0, 0],
        &[(1, Some(1), READ), (2, Some(1), READ), (0, Some(0), READ)],
    );
    let allocator = Allocator::default();
    let mut ctx = context(facts, ModuleKind::Module, CompressOptionsUnused::Remove, &allocator);
    register_function(&declaration(0, 1), &mut ctx);
    register_function(&declaration(1, 2), &mut ctx);
    assert!(!analyze(&mut ctx, true));
    assert_eq!(dead(&ctx), Vec::<usize>::new());
    ctx.scoping.resolved_references[0].clear();
    ctx.state.dead_refs.set_bit(2);
    assert!(!dead_references_affect_analysis(&ctx));
    assert!(analyze(&mut ctx, true));
    assert_eq!(dead(&ctx), vec![1]);
}

#[test]
fn registration_never_hides_an_observable_binding() {
    let allocator = Allocator::default();
    let mut ctx = context(cycle_with_unused_caller(), ModuleKind::Module, CompressOptionsUnused::Remove, &allocator);
    let export_h = ExportDefaultFacts { declaration: ExportDefaultDeclarationKind::FunctionDeclaration(Some(2)) };
    register_default_export(&export_h, &mut ctx);
    register_cycle(&mut ctx);
    let value = NamedExportFacts { is_type: false, declaration: None, has_source: false, specifiers: Vec::new() };
    register_named_export(&value, &mut ctx);
    assert!(ctx.state.symbol_reachability.as_ref().unwrap().is_externally_observable(2));
    // h is observable, so its call roots f, and f roots g.
    assert!(!analyze(&mut ctx, true));
    assert_eq!(dead(&ctx), Vec::<usize>::new());
    assert!(ctx.state.symbol_reachability.as_ref().unwrap().is_externally_observable(2));
}

#[test]
fn dead_functions_stay_dead_when_references_are_deleted_or_copied() {
    let allocator = Allocator::default();
    let mut ctx = context(cycle_with_unused_caller(), ModuleKind::Module, CompressOptionsUnused::Remove, &allocator);
    register_cycle(&mut ctx);
    assert!(analyze(&mut ctx, true));
    assert_eq!(dead(&ctx), vec![0, 1]);
    // Copy f's call of g inside f (a new reference in scope 1 to g).
    ctx.scoping.reference_scopes.push(1);
    ctx.scoping.reference_symbols.push(Some(1));
    ctx.scoping.reference_flags.push(READ);
    ctx.scoping.resolved_references[1].push(3);
    assert!(ctx.scoping.check_well_formed());
    assert!(!analyze(&mut ctx, true));
    assert_eq!(dead(&ctx), vec![0, 1]);
    // Delete h's call of f: f and g stay dead.
    ctx.scoping.resolved_references[0].retain(|&reference| reference != 2);
    assert!(!analyze(&mut ctx, true));
    assert_eq!(dead(&ctx), vec![0, 1]);
}

#[test]
fn only_admitted_declarations_become_candidates() {
    // Three function bodies; only the first is registered as a declaration,
    // the second as an expression. Deleting a reference to a symbol matters
    // to the analysis exactly when that symbol is a candidate.
    let facts = model(
        &[
            (None, TOP | STRICT),
            (Some(0), FUNCTION | STRICT),
            (Some(0), FUNCTION | STRICT),
            (Some(0), FUNCTION | STRICT),
        ],
        &[0, 0, 0],
        &[(0, Some(0), READ), (0, Some(1), READ), (0, Some(2), READ)],
    );
    let allocator = Allocator::default();
    let mut ctx = context(facts, ModuleKind::Module, CompressOptionsUnused::Remove, &allocator);
    let mut expression = declaration(1, 2);
    expression.is_declaration = false;
    register_function(&declaration(0, 1), &mut ctx);
    register_function(&expression, &mut ctx);
    for (reference, affects) in [(0, true), (1, false), (2, false)] {
        let mut only = BitSet::new_in(3, &allocator);
        only.set_bit(reference);
        ctx.state.dead_refs = only;
        assert_eq!(dead_references_affect_analysis(&ctx), affects);
    }
}

/// For each of the three references, whether deleting it alone affects the
/// analysis: whether it resolves to a candidate.
fn affects<'a>(ctx: &mut TraverseCtx<'a>, allocator: &'a Allocator) -> Vec<bool> {
    (0..3)
        .map(|reference| {
            let mut only = BitSet::new_in(3, allocator);
            only.set_bit(reference);
            ctx.state.dead_refs = only;
            dead_references_affect_analysis(ctx)
        })
        .collect()
}

#[test]
fn second_analysis_of_settled_facts_keeps_the_candidates() {
    let allocator = Allocator::default();
    let mut ctx = context(cycle_with_unused_caller(), ModuleKind::Module, CompressOptionsUnused::Remove, &allocator);
    register_cycle(&mut ctx);
    assert!(analyze(&mut ctx, true));
    // h, referenced nowhere, left the graph; f and g stay candidates.
    let after_first = affects(&mut ctx, &allocator);
    assert_eq!(after_first, vec![true, true, true]);
    assert!(!analyze(&mut ctx, true));
    assert_eq!(affects(&mut ctx, &allocator), after_first);
    assert_eq!(dead(&ctx), vec![0, 1]);
}

#[test]
fn exporting_a_count_dead_caller_revives_its_callees() {
    // After the first analysis f and g are dead and h, which calls f, left
    // the graph unreferenced. Exporting h lets code outside run it, so the
    // next analysis finds f and g live again: the monotonic-deadness law
    // asks that nothing like h becomes observable.
    let allocator = Allocator::default();
    let mut ctx = context(cycle_with_unused_caller(), ModuleKind::Module, CompressOptionsUnused::Remove, &allocator);
    register_cycle(&mut ctx);
    assert!(analyze(&mut ctx, true));
    assert_eq!(dead(&ctx), vec![0, 1]);
    let export_h = ExportDefaultFacts { declaration: ExportDefaultDeclarationKind::FunctionDeclaration(Some(2)) };
    register_default_export(&export_h, &mut ctx);
    assert!(!analyze(&mut ctx, true));
    assert_eq!(dead(&ctx), Vec::<usize>::new());
}
