//! The declaration-removal scenarios of the compressor, as the liveness
//! analysis decides them: each source is parsed, its semantic model read into
//! facts, its functions and exports registered, and the dead set the analysis
//! publishes compared with the function declarations that the compressed
//! output drops because no running code reaches them.

use oxc_allocator::{Allocator, BitSet};
use oxc_ast::ast::{
    Declaration, ExportDeclaration, ExportDefaultDeclaration, ExportDefaultDeclarationKind,
    ExportFromDeclaration, ExportNamedDeclaration, ExportSpecifier, Function, ModuleExportName,
};
use oxc_ast_visit::{Visit, walk};
use oxc_ecmascript::BoundNames;
use oxc_parser::Parser;
use oxc_semantic::{Scoping, SemanticBuilder};
use oxc_span::SourceType;
use oxc_syntax::{
    reference::ReferenceId,
    scope::{ScopeFlags, ScopeId},
    symbol::SymbolId,
};
use symbol_liveness::hooks::{
    analyze, dead_references_affect_analysis, register_default_export, register_function,
    register_named_export, ExportDefaultDeclarationKind as DefaultKind, ExportDefaultFacts,
    ExportSpecifierFacts, MinifierState, NamedExportFacts, TraverseCtx,
};
use symbol_liveness::reachability::{
    CompressOptions, CompressOptionsUnused, FunctionFacts, ModuleKind, SymbolReachability,
};
use symbol_liveness::scoping::ScopingFacts;

fn scoping_facts(scoping: &Scoping) -> ScopingFacts {
    let scopes = scoping.scopes_len();
    let symbols = scoping.symbols_len();
    let references = scoping.references_len();
    ScopingFacts {
        scope_parents: (0..scopes)
            .map(|i| scoping.scope_parent_id(ScopeId::new(i)).map(ScopeId::index))
            .collect(),
        scope_flags: (0..scopes).map(|i| scoping.scope_flags(ScopeId::new(i)).bits()).collect(),
        symbol_scopes: (0..symbols).map(|i| scoping.symbol_scope_id(SymbolId::new(i)).index()).collect(),
        resolved_references: (0..symbols)
            .map(|i| {
                scoping.get_resolved_reference_ids(SymbolId::new(i)).iter().map(|r| r.index()).collect()
            })
            .collect(),
        reference_scopes: (0..references)
            .map(|i| scoping.get_reference(ReferenceId::new(i)).scope_id().index())
            .collect(),
        reference_symbols: (0..references)
            .map(|i| scoping.get_reference(ReferenceId::new(i)).symbol_id().map(SymbolId::index))
            .collect(),
        reference_flags: (0..references)
            .map(|i| scoping.get_reference(ReferenceId::new(i)).flags().bits())
            .collect(),
    }
}

fn module_kind(source_type: SourceType) -> ModuleKind {
    if source_type.is_module() {
        ModuleKind::Module
    } else if source_type.is_script() {
        ModuleKind::Script
    } else if source_type.is_commonjs() {
        ModuleKind::CommonJS
    } else {
        ModuleKind::Unambiguous
    }
}

fn specifier_facts(specifier: &ExportSpecifier<'_>) -> ExportSpecifierFacts {
    let local_reference = match &specifier.local {
        ModuleExportName::IdentifierReference(local) => local.reference_id.get().map(ReferenceId::index),
        _ => None,
    };
    ExportSpecifierFacts { is_type: specifier.export_kind.is_type(), local_reference }
}

fn bound_symbols(declaration: &Declaration<'_>) -> Vec<Option<usize>> {
    let mut symbols = Vec::new();
    declaration.bound_names(&mut |ident| symbols.push(ident.symbol_id.get().map(SymbolId::index)));
    symbols
}

/// Registers what the compressor's normalize pass registers.
struct Registrar<'c, 'a> {
    ctx: &'c mut TraverseCtx<'a>,
    source: &'c str,
}

impl<'a> Visit<'a> for Registrar<'_, '_> {
    fn visit_function(&mut self, function: &Function<'a>, flags: ScopeFlags) {
        let facts = FunctionFacts {
            is_declaration: function.is_declaration(),
            symbol_id: function.id.as_ref().and_then(|id| id.symbol_id.get()).map(SymbolId::index),
            scope_id: function.scope_id.get().map(ScopeId::index),
            // An `async` declaration's span starts at its `async` keyword.
            is_async: self.source[function.span.start as usize..].starts_with("async"),
            is_generator: function.generator,
        };
        register_function(&facts, self.ctx);
        walk::walk_function(self, function, flags);
    }

    fn visit_export_declaration(&mut self, it: &ExportDeclaration<'a>) {
        let facts = NamedExportFacts {
            is_type: it.declaration.is_type(),
            declaration: Some(bound_symbols(&it.declaration)),
            has_source: false,
            specifiers: Vec::new(),
        };
        register_named_export(&facts, self.ctx);
        walk::walk_export_declaration(self, it);
    }

    fn visit_export_named_declaration(&mut self, it: &ExportNamedDeclaration<'a>) {
        let facts = NamedExportFacts {
            is_type: it.export_kind.is_type(),
            declaration: None,
            has_source: false,
            specifiers: it.specifiers.iter().map(specifier_facts).collect(),
        };
        register_named_export(&facts, self.ctx);
        walk::walk_export_named_declaration(self, it);
    }

    fn visit_export_from_declaration(&mut self, it: &ExportFromDeclaration<'a>) {
        let facts = NamedExportFacts {
            is_type: it.export_kind.is_type(),
            declaration: None,
            has_source: true,
            specifiers: it.specifiers.iter().map(specifier_facts).collect(),
        };
        register_named_export(&facts, self.ctx);
        walk::walk_export_from_declaration(self, it);
    }

    fn visit_export_default_declaration(&mut self, it: &ExportDefaultDeclaration<'a>) {
        let declaration = match &it.declaration {
            ExportDefaultDeclarationKind::FunctionDeclaration(function) => DefaultKind::FunctionDeclaration(
                function.id.as_ref().and_then(|id| id.symbol_id.get()).map(SymbolId::index),
            ),
            ExportDefaultDeclarationKind::ClassDeclaration(class) => DefaultKind::ClassDeclaration(
                class.id.as_ref().and_then(|id| id.symbol_id.get()).map(SymbolId::index),
            ),
            _ => DefaultKind::Expression,
        };
        register_default_export(&ExportDefaultFacts { declaration }, self.ctx);
        walk::walk_export_default_declaration(self, it);
    }
}

/// Parses `source`, registers it, and hands the context and the semantic
/// model to `run`.
fn with_registered<R>(
    source: &str,
    source_type: SourceType,
    unused: CompressOptionsUnused,
    run: impl FnOnce(&mut TraverseCtx<'_>, &Scoping) -> R,
) -> R {
    let allocator = Allocator::default();
    let ret = Parser::new(&allocator, source, source_type).parse();
    assert!(!ret.panicked && !ret.diagnostics.has_errors(), "does not parse: {source}");
    let program = allocator.alloc(ret.program);
    let scoping = SemanticBuilder::new().build(program).semantic.into_scoping();
    let facts = scoping_facts(&scoping);
    assert!(facts.check_well_formed());
    let kind = module_kind(source_type);
    let options = CompressOptions { unused };
    let symbol_reachability = SymbolReachability::new(kind, &options, &facts, &allocator);
    let dead_refs = BitSet::new_in(scoping.references_len(), &allocator);
    let mut ctx = TraverseCtx {
        state: MinifierState { options, source_type: kind, symbol_reachability, dead_refs },
        scoping: facts,
        allocator: &allocator,
    };
    Registrar { ctx: &mut ctx, source }.visit_program(program);
    run(&mut ctx, &scoping)
}

/// The names of the functions the analysis currently publishes as dead.
fn dead_names(ctx: &TraverseCtx<'_>, scoping: &Scoping) -> Vec<String> {
    let mut names: Vec<String> = (0..scoping.symbols_len())
        .filter(|&symbol| {
            ctx.state.symbol_reachability.as_ref().is_some_and(|r| r.function_is_dead(symbol))
        })
        .map(|symbol| scoping.symbol_name(SymbolId::new(symbol)).to_string())
        .collect();
    names.sort();
    names
}

/// The functions the first analysis of an ES module publishes as dead.
fn dead_functions(source: &str) -> Vec<String> {
    dead_functions_with(source, SourceType::mjs(), CompressOptionsUnused::Remove)
}

fn dead_functions_with(source: &str, source_type: SourceType, unused: CompressOptionsUnused) -> Vec<String> {
    with_registered(source, source_type, unused, |ctx, scoping| {
        let found = analyze(ctx, true);
        let dead = dead_names(ctx, scoping);
        assert_eq!(found, !dead.is_empty(), "new dead functions reported for {source}");
        dead
    })
}

/// Deletes every reference to `name` that sits directly in the program's
/// root scope, as a pass that drops that code deletes them.
fn delete_root_references(ctx: &mut TraverseCtx<'_>, scoping: &Scoping, name: &str) {
    for reference in 0..ctx.scoping.reference_scopes.len() {
        let Some(symbol) = ctx.scoping.reference_symbols[reference] else { continue };
        if ctx.scoping.reference_scopes[reference] == 0
            && scoping.symbol_name(SymbolId::new(symbol)) == name
        {
            ctx.scoping.resolved_references[symbol].retain(|&r| r != reference);
            ctx.state.dead_refs.set_bit(reference);
        }
    }
}

fn none() -> Vec<String> {
    Vec::new()
}

fn names(list: &[&str]) -> Vec<String> {
    list.iter().map(|name| (*name).to_string()).collect()
}

#[test]
fn remove_unused_function_declaration() {
    assert_eq!(dead_functions("function foo() {}"), none());
    assert_eq!(dead_functions("function foo() { bar } foo()"), none());
    assert_eq!(dead_functions("export function foo() {} foo()"), none());
    assert_eq!(dead_functions("function foo() { bar } eval('foo()')"), none());
}

#[test]
fn remove_unused_declaration_after_dead_direct_eval() {
    assert_eq!(dead_functions("function f(){if(false)eval('x');var x}f()"), none());
    assert_eq!(dead_functions("function f(){eval('x');var x}f()"), none());
    assert_eq!(dead_functions("function f(){if(false)y;(eval)('x');var x}f()"), none());
    assert_eq!(dead_functions("function f(){if(false)y;foo(eval('x'));var x}f()"), none());
    assert_eq!(
        dead_functions("function outer(){function inner(){if(false)eval('x')}inner();var x}outer()"),
        none()
    );
    assert_eq!(dead_functions("eval('x');var x"), none());
}

#[test]
fn remove_unused_declaration_with_optional_eval() {
    assert_eq!(dead_functions("function f(){if(false)eval?.('x');var x}f()"), none());
    assert_eq!(dead_functions("eval?.('x');var x"), none());
}

#[test]
fn remove_unused_class_declaration() {
    for source in [
        "class C {}",
        "export class C {}",
        "class C {} C",
        "class C {} eval('C')",
        "class C extends Foo {}",
        "class C { static {} }",
        "class C { static { foo } }",
        "class C { foo() {} }",
        "class C { [foo]() {} }",
        "class C { static foo() {} }",
        "class C { static [foo]() {} }",
        "class C { [1]() {} }",
        "class C { static [1]() {} }",
        "class C { foo }",
        "class C { foo = bar }",
        "class C { foo = 1 }",
        "class C { static foo = bar }",
        "class C { static foo = this.bar = {} }",
        "class C { static foo = 1 }",
        "class C { [foo] = bar }",
        "class C { [foo] = 1 }",
        "class C { static [foo] = bar }",
        "class C { static [foo] = 1 }",
        "class C { accessor foo = 1 }",
        "class C { accessor [foo] = 1 }",
        "class _ extends A { [B] = C; [D]() {} }",
        "class C { @dec foo() {} }",
        "@dec class C {}",
        "class C extends (() => {}) {}",
    ] {
        assert_eq!(dead_functions(source), none(), "{source}");
    }
}

#[test]
fn remove_recursive_unused_function_declaration() {
    assert_eq!(dead_functions("function f() { f() }"), names(&["f"]));
    assert_eq!(dead_functions("function f() { console.log(1); f() }"), names(&["f"]));
    assert_eq!(dead_functions("function c() { d() } function d() { c() }"), names(&["c", "d"]));
    assert_eq!(dead_functions("function f() { return f }"), names(&["f"]));
    assert_eq!(dead_functions("function f() { g(f) }"), names(&["f"]));
    // The cycle's only external reference is inside dead code: the first
    // analysis sees it, the pass that drops `if (false) c()` deletes it, and
    // the recomputed analysis removes the whole cycle.
    with_registered(
        "if (false) c(); function c() { d() } function d() { c() }",
        SourceType::mjs(),
        CompressOptionsUnused::Remove,
        |ctx, scoping| {
            assert!(!analyze(ctx, true));
            assert_eq!(dead_names(ctx, scoping), none());
            delete_root_references(ctx, scoping, "c");
            assert!(dead_references_affect_analysis(ctx));
            assert!(analyze(ctx, true));
            assert_eq!(dead_names(ctx, scoping), names(&["c", "d"]));
        },
    );
}

#[test]
fn keep_recursive_declarator_and_class_cycles() {
    assert_eq!(dead_functions("const a = () => b(); const b = () => a();"), none());
    assert_eq!(dead_functions("var f = function() {\n\tf();\n};"), none());
    assert_eq!(
        dead_functions(
            "class A {\n\tm() {\n\t\tnew B();\n\t}\n}\nclass B {\n\tm() {\n\t\tnew A();\n\t}\n}"
        ),
        none()
    );
    assert_eq!(
        dead_functions("function a() { b() } const b = () => { new C() }; class C { m() { a() } }"),
        none()
    );
}

#[test]
fn remove_recursive_unused_nested_in_live_function() {
    assert_eq!(
        dead_functions("function live() { function inner() { inner() } return 1; } g(live());"),
        names(&["inner"])
    );
}

#[test]
fn keep_recursive_multi_declarator_cycle() {
    assert_eq!(
        dead_functions("const a = () => b(), keep = 1; function b() { a() } console.log(keep);"),
        none()
    );
}

#[test]
fn keep_recursive_function_with_live_references() {
    assert_eq!(dead_functions("function f() { f() } console.log(f);"), none());
    assert_eq!(dead_functions("function f() { f() } f = null;"), none());
    assert_eq!(dead_functions("export function f() { f() }"), none());
    assert_eq!(dead_functions("function f() { f() } export { f };"), none());
    assert_eq!(dead_functions("export default function f() { f() }"), none());
    assert_eq!(dead_functions("function o() { function f() { f() } eval('x') } o();"), none());
}

#[test]
fn keep_recursive_cycle_with_side_effectful_evaluation() {
    assert_eq!(dead_functions("const a = (console.log(1), () => b()); const b = () => a();"), none());
    assert_eq!(
        dead_functions(
            "class A extends (console.log(1), Object) { m() { new B() } } class B { m() { new A() } }"
        ),
        none()
    );
    assert_eq!(
        dead_functions("class A { static x = B; m() { new B() } } class B { m() { new A() } }"),
        none()
    );
}

#[test]
fn keep_class_cycle_with_wrapped_arrow_heritage() {
    assert_eq!(
        dead_functions(
            "class A extends (0, () => {}) { m() { new B() } } class B { m() { new A() } } console.log(1);"
        ),
        none()
    );
    assert_eq!(dead_functions("class C extends (0, () => {}) {}"), none());
}

#[test]
fn keep_class_with_tdz_or_undefined_heritage() {
    assert_eq!(dead_functions("class C extends C {}"), none());
    assert_eq!(dead_functions("g(function() {\n\tclass C extends C {}\n});"), none());
    assert_eq!(dead_functions("class C extends (0, C) {}"), none());
    assert_eq!(
        dead_functions(
            "class A extends B {\n\tm() {\n\t\tnew A();\n\t}\n}\nclass B {\n\tm() {\n\t\tnew A();\n\t}\n}"
        ),
        none()
    );
    assert_eq!(
        dead_functions("var B = class {};\nclass A extends B {\n\tm() {\n\t\tnew A();\n\t}\n}"),
        none()
    );
}

#[test]
fn keep_class_cycle_with_hoisted_function_heritage() {
    assert_eq!(
        dead_functions("function F() {}\nclass A extends F {\n\tm() {\n\t\tnew A();\n\t}\n}"),
        none()
    );
}

#[test]
fn keep_class_cycle_with_fold_unstable_heritage() {
    assert_eq!(
        dead_functions(
            "class B { m() { new A() } } var Y = class {}; class A extends (0 || Y) { [B]() {} }"
        ),
        none()
    );
    assert_eq!(
        dead_functions("class B { m() { new A() } } class A extends (0 || (() => {})) { [B]() {} }"),
        none()
    );
}

#[test]
fn keep_class_cycle_with_wrapped_heritage() {
    assert_eq!(
        dead_functions("function F() {}\nclass A extends (0 || F) {\n\tm() {\n\t\tnew A();\n\t}\n}"),
        none()
    );
}

#[test]
fn keep_recursive_function_with_unused_keep_option() {
    assert_eq!(
        dead_functions_with("function f() { f() }", SourceType::mjs(), CompressOptionsUnused::Keep),
        none()
    );
}

#[test]
fn keep_recursive_cycle_with_exported_redeclaration() {
    assert_eq!(dead_functions("export var f; var f = function() { setTimeout(f) };"), none());
}

#[test]
fn keep_declarator_cycle_relocated_by_block_unwrap() {
    for source in [
        "function a() { b() } function p1() {} function p2() { p1() } if (g) { p2(); p1(b); var b = a; }",
        "function a() { b() } function p1() {} function p2() { p1() } if (g) { p2(); p1(b); for (var b = a; g2;) ; }",
        "function a() { b() } if (g) { var b = a; let c = 1; 0 && c; a; }",
        "function a() { b() } if (g) { for (var b = a;;) break; let c = 1; 0 && c; a; }",
    ] {
        assert_eq!(dead_functions(source), none(), "{source}");
    }
}

#[test]
fn keep_declarator_cycle_relocated_by_if_inversion() {
    assert_eq!(
        dead_functions(
            "function outer() { function a() { b(); } if (g) return; var b = a; function blocker() {} 0 && blocker; a; } outer();"
        ),
        none()
    );
}

#[test]
fn keep_declarator_cycle_relocated_by_for_body_unwrap() {
    assert_eq!(dead_functions("function a() { return b; } for (;;) { if (x) break; var b = a; } void a;"), none());
    assert_eq!(
        dead_functions(
            "function a() { return b; } for (;;) { if (x) break; for (var b = a;;) break; } void a;"
        ),
        none()
    );
}

#[test]
fn recursive_function_with_var_redeclaration() {
    assert_eq!(dead_functions("function f() { f() } var f = [g()];"), names(&["f"]));
    assert_eq!(dead_functions("function f() { f() } var f = [f];"), none());
}

#[test]
fn keep_recursive_for_init_declarator() {
    assert_eq!(dead_functions("for (let f = () => f();;) break;"), none());
}

#[test]
fn keep_cycle_after_single_use_substitution_into_declarator() {
    assert_eq!(
        dead_functions(
            "var t = console.log(1); var d = [t, g, ...'xy'].length; function g() { d(), g() } function g2() { t; g2() } let flag = false; if (flag) d;"
        ),
        names(&["g2"])
    );
}

#[test]
fn keep_using_declarator_cycle() {
    assert_eq!(
        dead_functions("function o() { using u = p; var p = function() { u() }; return 1 } g(o());"),
        none()
    );
    assert_eq!(
        dead_functions(
            "async function o() { await using u = p; var p = function() { u() }; return 1 } g(o());"
        ),
        none()
    );
}

#[test]
fn keep_exported_class_cycle() {
    assert_eq!(dead_functions("export class A { m() { new B() } } class B { m() { new A() } }"), none());
    assert_eq!(
        dead_functions("export default class A { m() { new B() } } class B { m() { new A() } }"),
        none()
    );
}

#[test]
fn remove_recursive_function_after_eval_dropped() {
    // While the root scope holds a direct eval nothing is dead; once the pass
    // drops the eval, the recomputed analysis removes the cycle.
    with_registered(
        "if (false) eval('x'); function f() { f() }",
        SourceType::mjs(),
        CompressOptionsUnused::Remove,
        |ctx, scoping| {
            assert!(!analyze(ctx, true));
            assert_eq!(dead_names(ctx, scoping), none());
            for flags in ctx.scoping.scope_flags.iter_mut() {
                *flags &= !ScopeFlags::DirectEval.bits();
            }
            assert!(analyze(ctx, true));
            assert_eq!(dead_names(ctx, scoping), names(&["f"]));
        },
    );
}

#[test]
fn remove_unused_import_specifiers() {
    for source in [
        "import a from 'a'",
        "import a from 'a'; foo()",
        // With invalid import side effects enabled; liveness has no option for it.
        "import a from 'a'",
        "import { a } from 'a'",
        "import { a, b } from 'a'",
        "import * as a from 'a'",
        "import a, { b } from 'a'",
        "import a, * as b from 'a'",
        "import a from 'a'; foo(a);",
        "import { a } from 'a'; foo(a);",
        "import * as a from 'a'; foo(a);",
        "import a, { b } from 'a'; foo(a, b);",
        "import { a, b } from 'a'; foo(a);",
        "import { a, b, c } from 'a'; foo(b);",
        "import a, { b } from 'a'; foo(a);",
        "import a, { b } from 'a'; foo(b);",
        "import a from 'a'; import { b } from 'b'; if (false) { console.log(b) }",
        "import 'a';",
        "import {} from 'a'",
        "import a from 'a' with { type: 'json' }",
        "import {} from 'a' with { type: 'json' }",
        "import { a as b } from 'a'",
        "import { a as b } from 'a'; foo(b);",
        "import { a } from 'a'; export { a };",
        "import { a } from 'a'; eval('a');",
        "import a from 'a'; eval('a');",
        "import * as a from 'a'; eval('a');",
        "import { a } from 'a'; function f() { eval('a'); }",
    ] {
        assert_eq!(dead_functions(source), none(), "{source}");
    }
}

#[test]
fn remove_unused_import_source_statement() {
    for source in [
        "import source a from 'a'",
        "import source a from 'a'; if (false) { console.log(a) }",
        "import source a from 'a'; foo(a);",
        // With invalid import side effects enabled; liveness has no option for it.
        "import source a from 'a'",
    ] {
        assert_eq!(dead_functions(source), none(), "{source}");
    }
}

#[test]
fn keep_cycle_with_parenthesized_residue_init() {
    assert_eq!(dead_functions("function a() { b(); } var b = (class { static x = a; });"), none());
    assert_eq!(dead_functions("function a() { b(); } var b = ([a]); console.log(1);"), none());
}

#[test]
fn keep_exported_var_initializer_when_a_dead_cycle_held_its_only_reference() {
    assert_eq!(
        dead_functions(
            "export var f;\nvar f = function () { return 'F' };\nfunction d1() { console.log(f); return d2() }\nfunction d2() { return d1() }"
        ),
        names(&["d1", "d2"])
    );
}

#[test]
fn keep_exported_binding_writes_when_a_dead_cycle_held_its_other_reads() {
    assert_eq!(
        dead_functions(
            "export var f; var f = 0; function d1() { console.log(f); d2() } function d2() { d1() } f = 1;"
        ),
        names(&["d1", "d2"])
    );
    assert_eq!(
        dead_functions(
            "export var f; var f = {}; function d1() { console.log(f); d2() } function d2() { d1() } f.x = 1;"
        ),
        names(&["d1", "d2"])
    );
}

#[test]
fn remove_unreachable_for_of_head_with_pinned_binding() {
    assert_eq!(dead_functions("export function f() { return 1; for (const x of arr) g(x); }"), none());
    assert_eq!(
        dead_functions(
            "var f = 1; function d1() { f; d2() } function d2() { d1() } if (false) for (var f of xs) {} export {};"
        ),
        names(&["d1", "d2"])
    );
    assert_eq!(dead_functions("if (false) for (var f of xs) {} f = 1; export {};"), none());
}

#[test]
fn keep_exported_iife_init_when_a_dead_cycle_held_its_only_reference() {
    assert_eq!(
        dead_functions(
            "export var f; var f = (async () => {})(); function d1() { f(); return d2() } function d2() { return d1() }"
        ),
        names(&["d1", "d2"])
    );
    assert_eq!(
        dead_functions(
            "export var g; var g = (function* () {})(); function d1() { g; return d2() } function d2() { return d1() }"
        ),
        names(&["d1", "d2"])
    );
}

#[test]
fn remove_unused_import_defer_statements() {
    for source in [
        "import defer * as a from 'a'",
        "import defer * as a from 'a'; if (false) { console.log(a.foo) }",
        "import defer * as a from 'a'; foo(a);",
        "import defer * as a from 'a'; foo(a.bar);",
        // With invalid import side effects enabled; liveness has no option for it.
        "import defer * as a from 'a'",
    ] {
        assert_eq!(dead_functions(source), none(), "{source}");
    }
}

#[test]
fn pin_oracle_ignores_declarations_inside_exported_arrow() {
    assert_eq!(
        dead_functions(
            "export default () => { function pinned() {} pinned(); }; function dead1() { dead2() } function dead2() { dead1() }"
        ),
        names(&["dead1", "dead2"])
    );
}
