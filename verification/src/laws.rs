//! What every analysis and every registration guarantees.
use crate::graph::{
    scope_owner,
    is_walk, lemma_closed_holds_reachable, owned_by_function, walk_step,
    analysis_dead, analysis_edges, analysis_roots, dropped_candidates, first_edge, first_roots,
    lemma_root_reachable, lemma_walk_extend, reachable, reference_edge_owner, reference_owner,
    reference_roots, remaining_candidates, rooted_by_reference,
};
use crate::hooks::{deletion_hits_candidate, named_export_symbols, default_export_symbol, ExportDefaultFacts, NamedExportFacts};
use crate::reachability::{
    after_registration, analyzed, registrable, CompressOptionsUnused, script_root_function, FunctionFacts, ModuleKind,
    ReachabilityView,
};
use crate::scoping::ScopingFacts;
use vstd::prelude::*;

verus! {

/// A function that an analysis publishes as dead is still a candidate, is
/// not observable from outside the program, and every reference to it sits
/// in the body of a function that is itself dead, or of one that nothing
/// references and nothing outside observes: no code that can run reaches it.
pub proof fn lemma_dead_functions_are_referenced_only_from_dead_code(
    f: ScopingFacts,
    table: Seq<Option<usize>>,
    candidates: Set<usize>,
    observable: Set<usize>,
    dead: Set<usize>,
    target: usize,
)
    requires
        analysis_dead(f, table, candidates, observable, dead).contains(target),
    ensures
        remaining_candidates(f, table, candidates, dead).contains(target),
        !observable.contains(target),
        forall|i: int| 0 <= i < f.references_of(target).len() ==> {
            let owner = #[trigger] reference_owner(f, table, f.references_of(target)[i]);
            &&& owner is Some
            &&& analysis_dead(f, table, candidates, observable, dead).contains(owner.unwrap())
                || (f.is_unused(owner.unwrap()) && !observable.contains(owner.unwrap()))
        },
{
    let roots = analysis_roots(f, table, candidates, observable, dead);
    let edges = analysis_edges(f, table, candidates, observable, dead);
    let dropped = dropped_candidates(f, table, candidates, dead);
    if observable.contains(target) {
        assert(first_roots(f, table, candidates, observable).contains(target));
        lemma_root_reachable(roots, edges, target);
    }
    assert forall|i: int| 0 <= i < f.references_of(target).len() implies {
        let owner = #[trigger] reference_owner(f, table, f.references_of(target)[i]);
        &&& owner is Some
        &&& analysis_dead(f, table, candidates, observable, dead).contains(owner.unwrap())
            || (f.is_unused(owner.unwrap()) && !observable.contains(owner.unwrap()))
    } by {
        let reference = f.references_of(target)[i];
        if reference_roots(f, table, candidates, observable, reference) {
            assert(rooted_by_reference(f, table, candidates, observable, target));
            assert(first_roots(f, table, candidates, observable).contains(target));
            lemma_root_reachable(roots, edges, target);
        } else {
            let owner = reference_owner(f, table, reference).unwrap();
            if candidates.contains(owner) {
            assert(reference_edge_owner(f, table, candidates, observable, reference) == Some(owner));
            assert(first_edge(f, table, candidates, observable, owner, target));
            if dropped.contains(owner) {
                if !f.is_unused(owner) {
                    assert(roots.contains(target));
                    lemma_root_reachable(roots, edges, target);
                }
            } else {
                assert(edges.contains((owner, target)));
                if reachable(roots, edges, owner) {
                    lemma_walk_extend(roots, edges, owner, target);
                }
                assert(remaining_candidates(f, table, candidates, dead).contains(owner));
            }
            }
        }
    }
}

/// A graph whose program holds a direct `eval` publishes nothing dead; in
/// any program an analysis only ever removes candidates, and everything it
/// publishes as dead is one of the remaining candidates.
pub proof fn lemma_analysis_shrinks_candidates(
    before: ReachabilityView,
    after: ReachabilityView,
    scoping: ScopingFacts,
    found_new_dead: bool,
)
    requires
        analyzed(before, after, scoping, found_new_dead),
        before.functions is Some,
    ensures
        after.functions.unwrap().candidates.subset_of(before.functions.unwrap().candidates),
        after.functions.unwrap().dead.subset_of(after.functions.unwrap().candidates),
        crate::flags::has_direct_eval(scoping.scope_flags@[0]) ==> after.functions.unwrap().dead.is_empty(),
        found_new_dead <==> !after.functions.unwrap().dead.subset_of(before.functions.unwrap().dead),
{
}

/// The analysis of a state holds the promise of
/// `lemma_dead_functions_are_referenced_only_from_dead_code` for every
/// function it publishes as dead.
pub proof fn lemma_published_dead_functions_are_unreachable(
    before: ReachabilityView,
    after: ReachabilityView,
    scoping: ScopingFacts,
    found_new_dead: bool,
    target: usize,
)
    requires
        analyzed(before, after, scoping, found_new_dead),
        after.functions matches Some(graph) && graph.dead.contains(target),
    ensures
        !before.observable.contains(target),
        forall|i: int| 0 <= i < scoping.references_of(target).len() ==> {
            let owner = #[trigger] reference_owner(
                scoping,
                before.functions.unwrap().owners,
                scoping.references_of(target)[i],
            );
            &&& owner is Some
            &&& after.functions.unwrap().dead.contains(owner.unwrap())
                || (scoping.is_unused(owner.unwrap()) && !before.observable.contains(owner.unwrap()))
        },
{
    let graph = before.functions.unwrap();
    lemma_dead_functions_are_referenced_only_from_dead_code(
        scoping,
        graph.owners,
        graph.candidates,
        before.observable,
        graph.dead,
        target,
    );
}

/// Observability is stable metadata: registering a function, a named export
/// or a default export never makes an observable binding unobservable.
pub proof fn lemma_registration_keeps_observable(
    view: ReachabilityView,
    function: FunctionFacts,
    named: NamedExportFacts,
    default: ExportDefaultFacts,
    source_type: ModuleKind,
    scoping: ScopingFacts,
)
    ensures
        view.observable.subset_of(after_registration(view, function, source_type, scoping).observable),
        view.observable.subset_of(view.observable.union(named_export_symbols(named, scoping))),
        default_export_symbol(default) matches Some(symbol) ==> view.observable.subset_of(view.observable.insert(symbol)),
{
}

/// A symbol that some walk of an analysis reaches without being referenced
/// anywhere is observable: nothing else roots it or leads to it.
proof fn lemma_unreferenced_reachable_is_observable(
    f: ScopingFacts,
    table: Seq<Option<usize>>,
    candidates: Set<usize>,
    observable: Set<usize>,
    dead: Set<usize>,
    walk: Seq<usize>,
)
    requires
        is_walk(
            analysis_roots(f, table, candidates, observable, dead),
            analysis_edges(f, table, candidates, observable, dead),
            walk,
        ),
        f.is_unused(walk.last()),
    ensures
        observable.contains(walk.last()),
{
    let roots = analysis_roots(f, table, candidates, observable, dead);
    let edges = analysis_edges(f, table, candidates, observable, dead);
    let target = walk.last();
    if walk.len() == 1 {
        if !first_roots(f, table, candidates, observable).contains(target) {
            let owner = choose|owner: usize| #[trigger] first_edge(f, table, candidates, observable, owner, target)
                && dropped_candidates(f, table, candidates, dead).contains(owner) && !f.is_unused(owner);
        } else if !observable.contains(target) {
            assert(rooted_by_reference(f, table, candidates, observable, target));
        }
    } else {
        assert(walk_step(edges, walk, walk.len() - 2));
        assert(first_edge(f, table, candidates, observable, walk[walk.len() - 2], target));
    }
}

/// Every symbol that the second of two analyses of the same facts reaches,
/// the first reached too.
proof fn lemma_second_analysis_reaches_less(
    f: ScopingFacts,
    table: Seq<Option<usize>>,
    candidates: Set<usize>,
    observable: Set<usize>,
    dead: Set<usize>,
    symbol: usize,
)
    requires
        reachable(
            analysis_roots(
                f,
                table,
                remaining_candidates(f, table, candidates, dead),
                observable,
                analysis_dead(f, table, candidates, observable, dead),
            ),
            analysis_edges(
                f,
                table,
                remaining_candidates(f, table, candidates, dead),
                observable,
                analysis_dead(f, table, candidates, observable, dead),
            ),
            symbol,
        ),
    ensures
        reachable(
            analysis_roots(f, table, candidates, observable, dead),
            analysis_edges(f, table, candidates, observable, dead),
            symbol,
        ),
{
    let c1 = remaining_candidates(f, table, candidates, dead);
    let d1 = analysis_dead(f, table, candidates, observable, dead);
    let r1 = analysis_roots(f, table, candidates, observable, dead);
    let e1 = analysis_edges(f, table, candidates, observable, dead);
    let n1 = dropped_candidates(f, table, candidates, dead);
    let r2 = analysis_roots(f, table, c1, observable, d1);
    let e2 = analysis_edges(f, table, c1, observable, d1);
    let n2 = dropped_candidates(f, table, c1, d1);
    let live1 = Set::new(|x: usize| reachable(r1, e1, x));
    // An edge of the second analysis is an edge of the first.
    assert forall|a: usize, b: usize| #[trigger] e2.contains((a, b)) implies e1.contains((a, b)) by {
        let i = choose|i: int| 0 <= i < f.references_of(b).len() && #[trigger] reference_edge_owner(
            f, table, c1, observable, f.references_of(b)[i]) == Some(a);
        assert(reference_edge_owner(f, table, candidates, observable, f.references_of(b)[i]) == Some(a));
        assert(first_edge(f, table, candidates, observable, a, b));
    }
    assert forall|a: usize, b: usize| live1.contains(a) && #[trigger] e2.contains((a, b)) implies live1.contains(b) by {
        lemma_walk_extend(r1, e1, a, b);
    }
    assert forall|x: usize| #[trigger] r2.contains(x) implies live1.contains(x) by {
        if first_roots(f, table, c1, observable).contains(x) {
            if observable.contains(x) {
                assert(first_roots(f, table, candidates, observable).contains(x));
                lemma_root_reachable(r1, e1, x);
            } else {
                let i = choose|i: int| 0 <= i < f.references_of(x).len() && #[trigger] reference_roots(
                    f, table, c1, observable, f.references_of(x)[i]);
                let reference = f.references_of(x)[i];
                if reference_roots(f, table, candidates, observable, reference) {
                    assert(rooted_by_reference(f, table, candidates, observable, x));
                    assert(first_roots(f, table, candidates, observable).contains(x));
                } else {
                    let owner = reference_owner(f, table, reference).unwrap();
                    assert(reference_edge_owner(f, table, candidates, observable, reference) == Some(owner));
                    assert(first_edge(f, table, candidates, observable, owner, x));
                    assert(n1.contains(owner));
                }
                lemma_root_reachable(r1, e1, x);
            }
        } else {
            let owner = choose|owner: usize| #[trigger] first_edge(f, table, c1, observable, owner, x)
                && n2.contains(owner) && !f.is_unused(owner);
            let i = choose|i: int| 0 <= i < f.references_of(x).len() && #[trigger] reference_edge_owner(
                f, table, c1, observable, f.references_of(x)[i]) == Some(owner);
            assert(reference_edge_owner(f, table, candidates, observable, f.references_of(x)[i]) == Some(owner));
            assert(e1.contains((owner, x)));
            assert(!d1.contains(owner));
            lemma_walk_extend(r1, e1, owner, x);
        }
    }
    let walk = choose|walk: Seq<usize>| #[trigger] is_walk(r2, e2, walk) && walk.last() == symbol;
    lemma_closed_holds_reachable(r2, e2, live1, walk);
}

/// Every symbol on a walk of the first analysis that stays a candidate, the
/// second analysis of the same facts reaches or drops.
proof fn lemma_first_walk_survives(
    f: ScopingFacts,
    table: Seq<Option<usize>>,
    candidates: Set<usize>,
    observable: Set<usize>,
    dead: Set<usize>,
    walk: Seq<usize>,
)
    requires
        is_walk(
            analysis_roots(f, table, candidates, observable, dead),
            analysis_edges(f, table, candidates, observable, dead),
            walk,
        ),
        remaining_candidates(f, table, candidates, dead).contains(walk.last()),
    ensures
        reachable(
            analysis_roots(
                f,
                table,
                remaining_candidates(f, table, candidates, dead),
                observable,
                analysis_dead(f, table, candidates, observable, dead),
            ),
            analysis_edges(
                f,
                table,
                remaining_candidates(f, table, candidates, dead),
                observable,
                analysis_dead(f, table, candidates, observable, dead),
            ),
            walk.last(),
        ) || dropped_candidates(
            f,
            table,
            remaining_candidates(f, table, candidates, dead),
            analysis_dead(f, table, candidates, observable, dead),
        ).contains(walk.last()),
    decreases walk.len(),
{
    let c1 = remaining_candidates(f, table, candidates, dead);
    let d1 = analysis_dead(f, table, candidates, observable, dead);
    let r1 = analysis_roots(f, table, candidates, observable, dead);
    let e1 = analysis_edges(f, table, candidates, observable, dead);
    let n1 = dropped_candidates(f, table, candidates, dead);
    let r2 = analysis_roots(f, table, c1, observable, d1);
    let e2 = analysis_edges(f, table, c1, observable, d1);
    let n2 = dropped_candidates(f, table, c1, d1);
    let target = walk.last();
    if walk.len() == 1 {
        assert(r1.contains(target));
        if first_roots(f, table, candidates, observable).contains(target) {
            if !observable.contains(target) {
                let i = choose|i: int| 0 <= i < f.references_of(target).len() && #[trigger] reference_roots(
                    f, table, candidates, observable, f.references_of(target)[i]);
                assert(reference_roots(f, table, c1, observable, f.references_of(target)[i]));
                assert(rooted_by_reference(f, table, c1, observable, target));
            }
        } else {
            let owner = choose|owner: usize| #[trigger] first_edge(f, table, candidates, observable, owner, target)
                && n1.contains(owner) && !f.is_unused(owner);
            let i = choose|i: int| 0 <= i < f.references_of(target).len() && #[trigger] reference_edge_owner(
                f, table, candidates, observable, f.references_of(target)[i]) == Some(owner);
            assert(reference_roots(f, table, c1, observable, f.references_of(target)[i]));
            assert(rooted_by_reference(f, table, c1, observable, target));
        }
        assert(first_roots(f, table, c1, observable).contains(target));
        lemma_root_reachable(r2, e2, target);
    } else {
        let prefix = walk.drop_last();
        let from = walk[walk.len() - 2];
        assert(walk_step(e1, walk, walk.len() - 2));
        assert(e1.contains((from, target)));
        let i = choose|i: int| 0 <= i < f.references_of(target).len() && #[trigger] reference_edge_owner(
            f, table, candidates, observable, f.references_of(target)[i]) == Some(from);
        assert(c1.contains(from));
        assert forall|k: int| 0 <= k < prefix.len() - 1 implies #[trigger] walk_step(e1, prefix, k) by {
            assert(walk_step(e1, walk, k));
        }
        assert(prefix.last() == from);
        lemma_first_walk_survives(f, table, candidates, observable, dead, prefix);
        assert(reference_edge_owner(f, table, c1, observable, f.references_of(target)[i]) == Some(from));
        assert(first_edge(f, table, c1, observable, from, target));
        if n2.contains(from) {
            if f.is_unused(from) {
                lemma_unreferenced_reachable_is_observable(f, table, candidates, observable, dead, prefix);
            }
            assert(r2.contains(target));
            lemma_root_reachable(r2, e2, target);
        } else {
            assert(e2.contains((from, target)));
            lemma_walk_extend(r2, e2, from, target);
        }
    }
}

/// Analyzing settled facts again (the same semantic model and observable
/// bindings, starting from the candidates and dead set the first analysis
/// left) publishes the same dead set, so it finds nothing new.
pub proof fn lemma_analysis_of_settled_facts_is_stable(
    f: ScopingFacts,
    table: Seq<Option<usize>>,
    candidates: Set<usize>,
    observable: Set<usize>,
    dead: Set<usize>,
)
    ensures
        analysis_dead(
            f,
            table,
            remaining_candidates(f, table, candidates, dead),
            observable,
            analysis_dead(f, table, candidates, observable, dead),
        ) == analysis_dead(f, table, candidates, observable, dead),
{
    let c1 = remaining_candidates(f, table, candidates, dead);
    let d1 = analysis_dead(f, table, candidates, observable, dead);
    let r1 = analysis_roots(f, table, candidates, observable, dead);
    let e1 = analysis_edges(f, table, candidates, observable, dead);
    let r2 = analysis_roots(f, table, c1, observable, d1);
    let e2 = analysis_edges(f, table, c1, observable, d1);
    let n2 = dropped_candidates(f, table, c1, d1);
    let d2 = analysis_dead(f, table, c1, observable, d1);
    assert forall|x: usize| #[trigger] d2.contains(x) <==> d1.contains(x) by {
        if d1.contains(x) {
            assert(!n2.contains(x));
            if reachable(r2, e2, x) {
                lemma_second_analysis_reaches_less(f, table, candidates, observable, dead, x);
            }
        }
        if d2.contains(x) && reachable(r1, e1, x) {
            let walk = choose|walk: Seq<usize>| #[trigger] is_walk(r1, e1, walk) && walk.last() == x;
            lemma_first_walk_survives(f, table, candidates, observable, dead, walk);
        }
    }
    assert(d2 =~= d1);
}

/// Analyzing settled facts again keeps the candidates, when the first
/// analysis resurrected no candidate it was handed as dead (as holds for
/// the first analysis after registration, which starts with nothing dead):
/// a candidate that survived the first analysis is referenced inside some
/// function, or stays dead, so the second analysis drops nothing.
pub proof fn lemma_analysis_of_settled_facts_keeps_candidates(
    f: ScopingFacts,
    table: Seq<Option<usize>>,
    candidates: Set<usize>,
    observable: Set<usize>,
    dead: Set<usize>,
)
    requires
        forall|t: usize| #[trigger] dead.contains(t) && candidates.contains(t)
            ==> analysis_dead(f, table, candidates, observable, dead).contains(t),
    ensures
        remaining_candidates(
            f,
            table,
            remaining_candidates(f, table, candidates, dead),
            analysis_dead(f, table, candidates, observable, dead),
        ) == remaining_candidates(f, table, candidates, dead),
{
    let c1 = remaining_candidates(f, table, candidates, dead);
    let d1 = analysis_dead(f, table, candidates, observable, dead);
    assert forall|t: usize| c1.contains(t) implies !#[trigger] dropped_candidates(f, table, c1, d1).contains(t) by {
        if dead.contains(t) {
            assert(d1.contains(t));
        }
    }
    assert(remaining_candidates(f, table, c1, d1) =~= c1);
}

/// Two analyses in a row of the same semantic model: the second publishes
/// the dead set the first published and reports nothing new. Compressing
/// settled output again therefore removes nothing more. When the first
/// resurrected nothing it was handed as dead (nothing was dead before it, for
/// one), the second also keeps the candidates.
pub proof fn lemma_repeated_analysis_finds_nothing_new(
    first: ReachabilityView,
    second: ReachabilityView,
    third: ReachabilityView,
    scoping: ScopingFacts,
    found_first: bool,
    found_second: bool,
)
    requires
        analyzed(first, second, scoping, found_first),
        analyzed(second, third, scoping, found_second),
    ensures
        !found_second,
        third.functions matches Some(graph) ==> graph.dead == second.functions.unwrap().dead,
        first.functions matches Some(graph) ==> (graph.dead.subset_of(second.functions.unwrap().dead)
            ==> third.functions.unwrap().candidates == second.functions.unwrap().candidates),
{
    if first.functions is Some && !crate::flags::has_direct_eval(scoping.scope_flags@[0]) {
        let graph = first.functions.unwrap();
        if graph.dead.subset_of(second.functions.unwrap().dead) {
            lemma_analysis_of_settled_facts_keeps_candidates(
                scoping,
                graph.owners,
                graph.candidates,
                first.observable,
                graph.dead,
            );
        }
        lemma_analysis_of_settled_facts_is_stable(
            scoping,
            graph.owners,
            graph.candidates,
            first.observable,
            graph.dead,
        );
        assert(third.functions.unwrap().dead =~= second.functions.unwrap().dead);
    }
}

/// Every reference `g` resolves to a symbol below `len` has a counterpart
/// among the references `f` resolves to that symbol, in the body of the same
/// function: `g` arose from `f` by deleting references or by copying one
/// within its owning function, with no reference moved across function
/// owners and no function declaration created.
pub open spec fn references_kept_in_owner(
    f: ScopingFacts,
    g: ScopingFacts,
    table: Seq<Option<usize>>,
    len: int,
) -> bool {
    forall|t: usize, i: int|
        t < len && 0 <= i < g.references_of(t).len() ==> exists|j: int|
            0 <= j < f.references_of(t).len() && #[trigger] reference_owner(f, table, f.references_of(t)[j])
                == #[trigger] reference_owner(g, table, g.references_of(t)[i])
}

/// What becomes observable between two analyses adds no path to a function
/// the first published dead: no such function becomes observable, and no
/// registered function outside the remaining candidates that nothing
/// referenced (whose body could not run) becomes observable either.
pub open spec fn observability_adds_no_path(
    f: ScopingFacts,
    table: Seq<Option<usize>>,
    remaining: Set<usize>,
    dead: Set<usize>,
    observable: Set<usize>,
    later_observable: Set<usize>,
) -> bool {
    &&& observable.subset_of(later_observable)
    &&& forall|s: usize| #[trigger] later_observable.contains(s) && !observable.contains(s) ==> {
        &&& !dead.contains(s)
        &&& (!remaining.contains(s) && exists|scope: int| 0 <= scope < table.len() && table[scope] == Some(s))
            ==> !f.is_unused(s)
    }
}

/// Every symbol that an analysis of `g` reaches, starting from the candidates
/// and dead set an analysis of `f` left, the analysis of `f` reached too,
/// when `g` only loses references or copies them within their owners and
/// what became observable adds no path.
proof fn lemma_later_analysis_reaches_less(
    f: ScopingFacts,
    g: ScopingFacts,
    table: Seq<Option<usize>>,
    candidates: Set<usize>,
    observable: Set<usize>,
    later_observable: Set<usize>,
    dead: Set<usize>,
    symbol: usize,
)
    requires
        references_kept_in_owner(f, g, table, f.resolved_references@.len() as int),
        forall|t: usize| #[trigger] candidates.contains(t) ==> t < f.resolved_references@.len(),
        forall|scope: int| 0 <= scope < table.len() && #[trigger] table[scope] is Some
            ==> table[scope].unwrap() < f.resolved_references@.len(),
        observability_adds_no_path(
            f,
            table,
            remaining_candidates(f, table, candidates, dead),
            analysis_dead(f, table, candidates, observable, dead),
            observable,
            later_observable,
        ),
        reachable(
            analysis_roots(
                g,
                table,
                remaining_candidates(f, table, candidates, dead),
                later_observable,
                analysis_dead(f, table, candidates, observable, dead),
            ),
            analysis_edges(
                g,
                table,
                remaining_candidates(f, table, candidates, dead),
                later_observable,
                analysis_dead(f, table, candidates, observable, dead),
            ),
            symbol,
        ),
    ensures
        reachable(
            analysis_roots(f, table, candidates, observable, dead),
            analysis_edges(f, table, candidates, observable, dead),
            symbol,
        ),
{
    let len = f.resolved_references@.len() as int;
    let later = later_observable;
    let c1 = remaining_candidates(f, table, candidates, dead);
    let d1 = analysis_dead(f, table, candidates, observable, dead);
    let r1 = analysis_roots(f, table, candidates, observable, dead);
    let e1 = analysis_edges(f, table, candidates, observable, dead);
    let n1 = dropped_candidates(f, table, candidates, dead);
    let r2 = analysis_roots(g, table, c1, later, d1);
    let e2 = analysis_edges(g, table, c1, later, d1);
    let n2 = dropped_candidates(g, table, c1, d1);
    let live1 = Set::new(|x: usize| reachable(r1, e1, x));
    // A function `g` still references, `f` referenced.
    assert forall|o: usize| o < len && !g.is_unused(o) implies !f.is_unused(o) by {
        assert(reference_owner(g, table, g.references_of(o)[0]) == reference_owner(g, table, g.references_of(o)[0]));
    }
    // An owner is a registered function, below `len`.
    assert forall|r: usize| #[trigger] reference_owner(g, table, r) is Some implies {
        &&& reference_owner(g, table, r).unwrap() < len
        &&& exists|scope: int| 0 <= scope < table.len() && table[scope] == reference_owner(g, table, r)
    } by {
        crate::graph::lemma_scope_owner_registered(g, table, g.reference_scopes@[r as int], g.scope_count());
    }
    // A remaining candidate the first analysis did not publish dead, it reached.
    assert forall|x: usize| c1.contains(x) && !d1.contains(x) implies #[trigger] live1.contains(x) by {
    }
    // An edge of the later analysis is an edge of the earlier one.
    assert forall|a: usize, b: usize| #[trigger] e2.contains((a, b)) implies e1.contains((a, b)) by {
        let i = choose|i: int| 0 <= i < g.references_of(b).len() && #[trigger] reference_edge_owner(
            g, table, c1, later, g.references_of(b)[i]) == Some(a);
        let j = choose|j: int| 0 <= j < f.references_of(b).len() && #[trigger] reference_owner(f, table, f.references_of(b)[j])
            == reference_owner(g, table, g.references_of(b)[i]);
        assert(reference_edge_owner(f, table, candidates, observable, f.references_of(b)[j]) == Some(a));
        assert(first_edge(f, table, candidates, observable, a, b));
    }
    assert forall|a: usize, b: usize| live1.contains(a) && #[trigger] e2.contains((a, b)) implies live1.contains(b) by {
        lemma_walk_extend(r1, e1, a, b);
    }
    assert forall|x: usize| #[trigger] r2.contains(x) implies live1.contains(x) by {
        if first_roots(g, table, c1, later).contains(x) {
            if observable.contains(x) {
                assert(first_roots(f, table, candidates, observable).contains(x));
                lemma_root_reachable(r1, e1, x);
            } else if later.contains(x) {
                assert(!d1.contains(x));
                assert(live1.contains(x));
            } else {
                let i = choose|i: int| 0 <= i < g.references_of(x).len() && #[trigger] reference_roots(
                    g, table, c1, later, g.references_of(x)[i]);
                let j = choose|j: int| 0 <= j < f.references_of(x).len() && #[trigger] reference_owner(f, table, f.references_of(x)[j])
                    == reference_owner(g, table, g.references_of(x)[i]);
                let reference = f.references_of(x)[j];
                if reference_roots(f, table, candidates, observable, reference) {
                    assert(rooted_by_reference(f, table, candidates, observable, x));
                    assert(first_roots(f, table, candidates, observable).contains(x));
                    lemma_root_reachable(r1, e1, x);
                } else {
                    let owner = reference_owner(f, table, reference).unwrap();
                    assert(reference_owner(g, table, g.references_of(x)[i]) == Some(owner));
                    assert(owner < len);
                    assert(reference_edge_owner(f, table, candidates, observable, reference) == Some(owner));
                    assert(first_edge(f, table, candidates, observable, owner, x));
                    if c1.contains(owner) {
                        // Newly observable and still a candidate: the first
                        // analysis reached it, and so its callee.
                        assert(later.contains(owner));
                        assert(!d1.contains(owner));
                        assert(e1.contains((owner, x)));
                        lemma_walk_extend(r1, e1, owner, x);
                    } else {
                        assert(n1.contains(owner));
                        assert(!f.is_unused(owner));
                        assert(r1.contains(x));
                        lemma_root_reachable(r1, e1, x);
                    }
                }
            }
        } else {
            let owner = choose|owner: usize| #[trigger] first_edge(g, table, c1, later, owner, x)
                && n2.contains(owner) && !g.is_unused(owner);
            let i = choose|i: int| 0 <= i < g.references_of(x).len() && #[trigger] reference_edge_owner(
                g, table, c1, later, g.references_of(x)[i]) == Some(owner);
            let j = choose|j: int| 0 <= j < f.references_of(x).len() && #[trigger] reference_owner(f, table, f.references_of(x)[j])
                == reference_owner(g, table, g.references_of(x)[i]);
            assert(reference_edge_owner(f, table, candidates, observable, f.references_of(x)[j]) == Some(owner));
            assert(first_edge(f, table, candidates, observable, owner, x));
            assert(e1.contains((owner, x)));
            assert(!d1.contains(owner));
            lemma_walk_extend(r1, e1, owner, x);
        }
    }
    let walk = choose|walk: Seq<usize>| #[trigger] is_walk(r2, e2, walk) && walk.last() == symbol;
    lemma_closed_holds_reachable(r2, e2, live1, walk);
}

/// Published deadness is monotonic: when the next semantic model `g` only
/// deletes references, or copies one within the function that holds it
/// (`references_kept_in_owner`), and what became observable since adds no
/// path to a dead function (`observability_adds_no_path`), the next
/// analysis, starting from the candidates and dead set the analysis of `f`
/// left, publishes every function that one published dead.
pub proof fn lemma_published_deadness_is_monotonic(
    f: ScopingFacts,
    g: ScopingFacts,
    table: Seq<Option<usize>>,
    candidates: Set<usize>,
    observable: Set<usize>,
    later_observable: Set<usize>,
    dead: Set<usize>,
)
    requires
        references_kept_in_owner(f, g, table, f.resolved_references@.len() as int),
        forall|t: usize| #[trigger] candidates.contains(t) ==> t < f.resolved_references@.len(),
        forall|scope: int| 0 <= scope < table.len() && #[trigger] table[scope] is Some
            ==> table[scope].unwrap() < f.resolved_references@.len(),
        observability_adds_no_path(
            f,
            table,
            remaining_candidates(f, table, candidates, dead),
            analysis_dead(f, table, candidates, observable, dead),
            observable,
            later_observable,
        ),
    ensures
        analysis_dead(f, table, candidates, observable, dead).subset_of(
            analysis_dead(
                g,
                table,
                remaining_candidates(f, table, candidates, dead),
                later_observable,
                analysis_dead(f, table, candidates, observable, dead),
            ),
        ),
{
    let c1 = remaining_candidates(f, table, candidates, dead);
    let d1 = analysis_dead(f, table, candidates, observable, dead);
    let r2 = analysis_roots(g, table, c1, later_observable, d1);
    let e2 = analysis_edges(g, table, c1, later_observable, d1);
    assert forall|x: usize| #[trigger] d1.contains(x) implies analysis_dead(g, table, c1, later_observable, d1).contains(x) by {
        assert(!dropped_candidates(g, table, c1, d1).contains(x));
        if reachable(r2, e2, x) {
            lemma_later_analysis_reaches_less(f, g, table, candidates, observable, later_observable, dead, x);
        }
    }
}

/// Two analyses in a row, the second of a semantic model that arose from the
/// first one's by deleting references or copying them within their owning
/// functions, with no direct `eval` formed: every function the first
/// published dead stays dead.
pub proof fn lemma_dead_functions_stay_dead(
    first: ReachabilityView,
    second: ReachabilityView,
    third: ReachabilityView,
    f: ScopingFacts,
    g: ScopingFacts,
    found_first: bool,
    found_second: bool,
)
    requires
        analyzed(first, second, f, found_first),
        analyzed(second, third, g, found_second),
        !crate::flags::has_direct_eval(g.scope_flags@[0]),
        first.functions matches Some(graph) ==> {
            &&& references_kept_in_owner(f, g, graph.owners, f.resolved_references@.len() as int)
            &&& forall|t: usize| #[trigger] graph.candidates.contains(t) ==> t < f.resolved_references@.len()
            &&& forall|scope: int| 0 <= scope < graph.owners.len() && #[trigger] graph.owners[scope] is Some
                ==> graph.owners[scope].unwrap() < f.resolved_references@.len()
        },
    ensures
        second.functions matches Some(published) ==> published.dead.subset_of(third.functions.unwrap().dead),
{
    if first.functions is Some && !crate::flags::has_direct_eval(f.scope_flags@[0]) {
        let graph = first.functions.unwrap();
        lemma_published_deadness_is_monotonic(f, g, graph.owners, graph.candidates, first.observable, first.observable, graph.dead);
    }
}

/// A registrable function bound in the root scope of a script becomes
/// observable and never a graph candidate: later scripts can call it.
pub proof fn lemma_script_root_functions_are_never_candidates(
    view: ReachabilityView,
    function: FunctionFacts,
    scoping: ScopingFacts,
)
    requires
        registrable(function, scoping),
        script_root_function(function, ModuleKind::Script, scoping),
    ensures
        after_registration(view, function, ModuleKind::Script, scoping).observable.contains(function.symbol_id.unwrap()),
        after_registration(view, function, ModuleKind::Script, scoping).functions == view.functions,
{
}

/// One call of a hook on the analysis state, as the hooks' contracts state
/// it: a call that changes nothing (an analysis not asked to recompute, a
/// function that is not a declaration), a function registration, a named or
/// default export registration, or an analysis.
pub open spec fn hook_step(before: ReachabilityView, after: ReachabilityView) -> bool {
    ||| after == before
    ||| exists|function: FunctionFacts, source_type: ModuleKind, scoping: ScopingFacts|
        after == #[trigger] after_registration(before, function, source_type, scoping)
    ||| exists|named: NamedExportFacts, scoping: ScopingFacts|
        after == ReachabilityView { observable: before.observable.union(#[trigger] named_export_symbols(named, scoping)), ..before }
    ||| exists|symbol: usize| after == ReachabilityView { observable: #[trigger] before.observable.insert(symbol), ..before }
    ||| exists|scoping: ScopingFacts, found_new_dead: bool| #[trigger] analyzed(before, after, scoping, found_new_dead)
}

/// Observability is stable metadata: along any sequence of hook calls, a
/// binding observable in one state stays observable in every later state.
pub proof fn lemma_observability_survives_every_call_sequence(states: Seq<ReachabilityView>, i: int, j: int)
    requires
        forall|k: int| 0 <= k < states.len() - 1 ==> #[trigger] hook_step(states[k], states[k + 1]),
        0 <= i <= j < states.len(),
    ensures
        states[i].observable.subset_of(states[j].observable),
    decreases j - i,
{
    if i < j {
        lemma_observability_survives_every_call_sequence(states, i, j - 1);
        let k = j - 1;
        assert(hook_step(states[k], states[k + 1]));
        let before = states[k];
        let after = states[j];
        assert(after == states[k + 1]);
        if exists|function: FunctionFacts, source_type: ModuleKind, scoping: ScopingFacts|
            after == #[trigger] after_registration(before, function, source_type, scoping) {
            let (function, source_type, scoping) = choose|function: FunctionFacts, source_type: ModuleKind, scoping: ScopingFacts|
                after == #[trigger] after_registration(before, function, source_type, scoping);
            assert(before.observable.subset_of(after.observable));
        }
    }
}

/// The state after the function-registration hook: registration runs only
/// for a declaration, and only when unused declarations are not kept.
pub open spec fn function_hook(
    view: ReachabilityView,
    function: FunctionFacts,
    unused: CompressOptionsUnused,
    source_type: ModuleKind,
    scoping: ScopingFacts,
) -> ReachabilityView {
    if function.is_declaration && unused != CompressOptionsUnused::Keep {
        after_registration(view, function, source_type, scoping)
    } else {
        view
    }
}

/// The graph candidates of a state; none without a graph.
pub open spec fn candidates_of(view: ReachabilityView) -> Set<usize> {
    match view.functions {
        Some(graph) => graph.candidates,
        None => Set::empty(),
    }
}

/// The symbols of the first `n` functions that the registration hook makes
/// candidates: declarations, unused ones not kept, registrable and not bound
/// in the root scope of a script.
pub open spec fn admitted_candidates(
    functions: Seq<FunctionFacts>,
    n: int,
    unused: CompressOptionsUnused,
    source_type: ModuleKind,
    scoping: ScopingFacts,
) -> Set<usize> {
    Set::new(
        |symbol: usize|
            exists|k: int|
                0 <= k < n && #[trigger] functions[k].symbol_id == Some(symbol) && functions[k].is_declaration
                    && unused != CompressOptionsUnused::Keep && registrable(functions[k], scoping)
                    && !script_root_function(functions[k], source_type, scoping),
    )
}

/// Registration only ever adds candidates: after the registration hook runs
/// on the first `n` of `functions`, the candidates are those of the starting
/// state plus exactly the admitted functions. Starting from a state with no
/// graph (as `SymbolReachability::new` leaves it), no symbol is a candidate
/// until a function is admitted.
pub proof fn lemma_candidates_are_the_admitted_functions(
    states: Seq<ReachabilityView>,
    functions: Seq<FunctionFacts>,
    unused: CompressOptionsUnused,
    source_type: ModuleKind,
    scoping: ScopingFacts,
    n: int,
)
    requires
        states.len() == functions.len() + 1,
        forall|k: int| 0 <= k < functions.len() ==> states[k + 1] == #[trigger] function_hook(
            states[k],
            functions[k],
            unused,
            source_type,
            scoping,
        ),
        0 <= n <= functions.len(),
    ensures
        candidates_of(states[n]) == candidates_of(states[0]).union(
            admitted_candidates(functions, n, unused, source_type, scoping),
        ),
    decreases n,
{
    if n == 0 {
        assert(admitted_candidates(functions, 0, unused, source_type, scoping) =~= Set::empty());
        assert(candidates_of(states[0]).union(Set::empty()) =~= candidates_of(states[0]));
    } else {
        lemma_candidates_are_the_admitted_functions(states, functions, unused, source_type, scoping, n - 1);
        let k = n - 1;
        assert(states[k + 1] == function_hook(states[k], functions[k], unused, source_type, scoping));
        let before = admitted_candidates(functions, k, unused, source_type, scoping);
        let after = admitted_candidates(functions, n, unused, source_type, scoping);
        let admitted = functions[k].is_declaration && unused != CompressOptionsUnused::Keep
            && registrable(functions[k], scoping) && !script_root_function(functions[k], source_type, scoping);
        if admitted {
            let symbol = functions[k].symbol_id.unwrap();
            assert forall|x: usize| #[trigger] after.contains(x) <==> before.insert(symbol).contains(x) by {
                if after.contains(x) {
                    let m = choose|m: int| 0 <= m < n && #[trigger] functions[m].symbol_id == Some(x)
                        && functions[m].is_declaration && unused != CompressOptionsUnused::Keep
                        && registrable(functions[m], scoping) && !script_root_function(functions[m], source_type, scoping);
                    if m < k {
                        assert(before.contains(x));
                    }
                }
                if before.contains(x) {
                    let m = choose|m: int| 0 <= m < k && #[trigger] functions[m].symbol_id == Some(x)
                        && functions[m].is_declaration && unused != CompressOptionsUnused::Keep
                        && registrable(functions[m], scoping) && !script_root_function(functions[m], source_type, scoping);
                    assert(functions[m].symbol_id == Some(x));
                }
                if x == symbol {
                    assert(functions[k].symbol_id == Some(x));
                }
            }
            assert(after =~= before.insert(symbol));
            assert(candidates_of(states[n]) =~= candidates_of(states[k]).insert(symbol));
            assert(candidates_of(states[n]) =~= candidates_of(states[0]).union(after));
        } else {
            assert forall|x: usize| #[trigger] after.contains(x) <==> before.contains(x) by {
                if after.contains(x) {
                    let m = choose|m: int| 0 <= m < n && #[trigger] functions[m].symbol_id == Some(x)
                        && functions[m].is_declaration && unused != CompressOptionsUnused::Keep
                        && registrable(functions[m], scoping) && !script_root_function(functions[m], source_type, scoping);
                    assert(m != k);
                }
                if before.contains(x) {
                    let m = choose|m: int| 0 <= m < k && #[trigger] functions[m].symbol_id == Some(x)
                        && functions[m].is_declaration && unused != CompressOptionsUnused::Keep
                        && registrable(functions[m], scoping) && !script_root_function(functions[m], source_type, scoping);
                    assert(functions[m].symbol_id == Some(x));
                }
            }
            assert(after =~= before);
            assert(candidates_of(states[n]) =~= candidates_of(states[k]));
        }
    }
}

/// Along analyses only, the graph keeps its owners and only loses candidates.
proof fn lemma_analyses_keep_owners(
    states: Seq<ReachabilityView>,
    models: Seq<ScopingFacts>,
    found: Seq<bool>,
    k: int,
)
    requires
        states.len() == models.len() + 1,
        found.len() == models.len(),
        forall|m: int| 0 <= m < models.len() ==> #[trigger] analyzed(states[m], states[m + 1], models[m], found[m]),
        0 <= k < states.len(),
    ensures
        states[k].functions is Some <==> states[0].functions is Some,
        states[0].functions matches Some(graph) ==> {
            &&& states[k].functions.unwrap().owners == graph.owners
            &&& states[k].functions.unwrap().candidates.subset_of(graph.candidates)
        },
    decreases k,
{
    if k > 0 {
        lemma_analyses_keep_owners(states, models, found, k - 1);
        let m = k - 1;
        assert(analyzed(states[m], states[m + 1], models[m], found[m]));
        if states[0].functions is Some && !crate::flags::has_direct_eval(models[m].scope_flags@[0]) {
            let graph = states[m].functions.unwrap();
            assert(remaining_candidates(models[m], graph.owners, graph.candidates, graph.dead).subset_of(graph.candidates));
        }
    }
}

/// Along any sequence of analyses, each of a semantic model that arose from
/// the one before by deleting references or copying them within their
/// owning functions (`references_kept_in_owner`, over the same symbols),
/// with no direct `eval` formed after the first: a function published dead
/// stays dead in every later state.
pub proof fn lemma_dead_functions_stay_dead_along_analyses(
    states: Seq<ReachabilityView>,
    models: Seq<ScopingFacts>,
    found: Seq<bool>,
    i: int,
    j: int,
)
    requires
        states.len() == models.len() + 1,
        found.len() == models.len(),
        forall|m: int| 0 <= m < models.len() ==> #[trigger] analyzed(states[m], states[m + 1], models[m], found[m]),
        forall|m: int| 1 <= m < models.len() ==> !crate::flags::has_direct_eval(#[trigger] models[m].scope_flags@[0]),
        forall|m: int| 0 <= m < models.len() ==> #[trigger] models[m].resolved_references@.len()
            == models[0].resolved_references@.len(),
        states[0].functions matches Some(graph) ==> {
            &&& forall|m: int| 1 <= m < models.len() ==> references_kept_in_owner(
                models[m - 1],
                #[trigger] models[m],
                graph.owners,
                models[0].resolved_references@.len() as int,
            )
            &&& forall|t: usize| #[trigger] graph.candidates.contains(t) ==> t < models[0].resolved_references@.len()
            &&& forall|scope: int| 0 <= scope < graph.owners.len() && #[trigger] graph.owners[scope] is Some
                ==> graph.owners[scope].unwrap() < models[0].resolved_references@.len()
        },
        1 <= i <= j < states.len(),
    ensures
        states[i].functions matches Some(published) ==> published.dead.subset_of(states[j].functions.unwrap().dead),
    decreases j - i,
{
    lemma_analyses_keep_owners(states, models, found, i);
    lemma_analyses_keep_owners(states, models, found, j);
    if i < j {
        lemma_dead_functions_stay_dead_along_analyses(states, models, found, i, j - 1);
        let m = j - 2;
        lemma_analyses_keep_owners(states, models, found, m);
        assert(analyzed(states[m], states[m + 1], models[m], found[m]));
        assert(analyzed(states[m + 1], states[m + 1 + 1], models[m + 1], found[m + 1]));
        assert(!crate::flags::has_direct_eval(models[m + 1].scope_flags@[0]));
        assert(models[m].resolved_references@.len() == models[0].resolved_references@.len());
        if states[0].functions is Some {
            let graph = states[0].functions.unwrap();
            assert(references_kept_in_owner(models[m + 1 - 1], models[m + 1], graph.owners,
                models[0].resolved_references@.len() as int));
        }
        lemma_dead_functions_stay_dead(
            states[m],
            states[m + 1],
            states[m + 1 + 1],
            models[m],
            models[m + 1],
            found[m],
            found[m + 1],
        );
    }
}

/// Every function a state publishes dead is a candidate that code outside
/// the program cannot observe.
pub open spec fn dead_are_hidden_candidates(view: ReachabilityView) -> bool {
    view.functions matches Some(graph) ==> forall|s: usize| #[trigger] graph.dead.contains(s)
        ==> graph.candidates.contains(s) && !view.observable.contains(s)
}

/// A hook call that makes no published dead function observable keeps every
/// dead function a hidden candidate; an analysis makes them so whatever
/// held before.
pub proof fn lemma_hook_step_keeps_dead_hidden(before: ReachabilityView, after: ReachabilityView)
    requires
        hook_step(before, after),
        dead_are_hidden_candidates(before) || exists|scoping: ScopingFacts, found_new_dead: bool|
            #[trigger] analyzed(before, after, scoping, found_new_dead),
        before.functions matches Some(graph) ==> forall|s: usize| #[trigger] after.observable.contains(s)
            && !before.observable.contains(s) ==> !graph.dead.contains(s),
    ensures
        dead_are_hidden_candidates(after),
{
    if exists|scoping: ScopingFacts, found_new_dead: bool| #[trigger] analyzed(before, after, scoping, found_new_dead) {
        let (scoping, found_new_dead) = choose|scoping: ScopingFacts, found_new_dead: bool|
            #[trigger] analyzed(before, after, scoping, found_new_dead);
        if before.functions is Some {
            lemma_analysis_shrinks_candidates(before, after, scoping, found_new_dead);
            assert forall|s: usize| #[trigger] after.functions.unwrap().dead.contains(s)
                implies !after.observable.contains(s) by {
                lemma_published_dead_functions_are_unreachable(before, after, scoping, found_new_dead, s);
            }
        }
    } else if exists|function: FunctionFacts, source_type: ModuleKind, scoping: ScopingFacts|
        after == #[trigger] after_registration(before, function, source_type, scoping) {
        let (function, source_type, scoping) = choose|function: FunctionFacts, source_type: ModuleKind, scoping: ScopingFacts|
            after == #[trigger] after_registration(before, function, source_type, scoping);
        if registrable(function, scoping) && !script_root_function(function, source_type, scoping) {
            assert forall|s: usize| #[trigger] after.functions.unwrap().dead.contains(s)
                implies after.functions.unwrap().candidates.contains(s) && !after.observable.contains(s) by {
                assert(before.functions is Some);
            }
        }
    }
}

/// Along any sequence of hook calls that starts with nothing published dead
/// (as `SymbolReachability::new` leaves it) and never makes a published dead
/// function observable, every function published dead is a candidate that
/// code outside the program cannot observe.
pub proof fn lemma_dead_functions_are_hidden_candidates_along_calls(states: Seq<ReachabilityView>, k: int)
    requires
        dead_are_hidden_candidates(states[0]),
        forall|m: int| 0 <= m < states.len() - 1 ==> #[trigger] hook_step(states[m], states[m + 1]),
        forall|m: int, s: usize| 0 <= m < states.len() - 1 && #[trigger] states[m + 1].observable.contains(s)
            && !states[m].observable.contains(s) && states[m].functions is Some
            ==> !states[m].functions.unwrap().dead.contains(s),
        0 <= k < states.len(),
    ensures
        dead_are_hidden_candidates(states[k]),
    decreases k,
{
    if k > 0 {
        let m = k - 1;
        lemma_dead_functions_are_hidden_candidates_along_calls(states, m);
        assert(hook_step(states[m], states[m + 1]));
        assert forall|s: usize| states[m].functions is Some && #[trigger] states[m + 1].observable.contains(s)
            && !states[m].observable.contains(s) implies !states[m].functions.unwrap().dead.contains(s) by {
        }
        lemma_hook_step_keeps_dead_hidden(states[m], states[m + 1]);
    }
}

/// Whether deleted references affect the analysis grows with what was
/// deleted: deleting more can only turn the answer of
/// `dead_references_affect_analysis` from no to yes, and with nothing
/// deleted it is no.
pub proof fn lemma_more_deleted_references_affect_more(
    view: ReachabilityView,
    scoping: ScopingFacts,
    fewer: Set<usize>,
    more: Set<usize>,
)
    requires
        fewer.subset_of(more),
    ensures
        deletion_hits_candidate(view, scoping, fewer) ==> deletion_hits_candidate(view, scoping, more),
        !deletion_hits_candidate(view, scoping, Set::empty()),
{
    if deletion_hits_candidate(view, scoping, fewer) {
        let r = choose|r: usize| #[trigger] fewer.contains(r) && crate::hooks::reference_hits_candidate(view, scoping, r);
        assert(more.contains(r));
    }
}

/// `chain` climbs the scope tree from `chain[0]` through parents to a scope
/// registered for `owner`, passing no other registered scope.
pub open spec fn parent_chain_to(f: ScopingFacts, table: Seq<Option<usize>>, chain: Seq<usize>, owner: usize) -> bool {
    &&& 1 <= chain.len() <= f.scope_count()
    &&& forall|i: int| 0 <= i < chain.len() ==> #[trigger] chain[i] < f.scope_count()
    &&& forall|i: int| #![trigger chain[i]] 0 <= i < chain.len() - 1 ==> {
        &&& f.scope_parents@[chain[i] as int] == Some(chain[i + 1])
        &&& !(chain[i] < table.len() && table[chain[i] as int] is Some)
    }
    &&& chain.last() < table.len()
    &&& table[chain.last() as int] == Some(owner)
}

proof fn lemma_chain_suffix_owner(f: ScopingFacts, table: Seq<Option<usize>>, chain: Seq<usize>, owner: usize, i: int, fuel: nat)
    requires
        parent_chain_to(f, table, chain, owner),
        0 <= i < chain.len(),
        fuel >= chain.len() - i,
    ensures
        scope_owner(f, table, chain[i], fuel) == Some(owner),
    decreases chain.len() - i,
{
    if i < chain.len() - 1 {
        assert(chain[i] < f.scope_count());
        assert(f.scope_parents@[chain[i] as int] == Some(chain[i + 1]));
        lemma_chain_suffix_owner(f, table, chain, owner, i + 1, (fuel - 1) as nat);
    }
}

/// A reference is owned by the function whose body scope is the first
/// registered scope above it, however many block scopes lie in between.
pub proof fn lemma_reference_owner_is_nearest_registered_ancestor(
    f: ScopingFacts,
    table: Seq<Option<usize>>,
    reference: usize,
    chain: Seq<usize>,
    owner: usize,
)
    requires
        parent_chain_to(f, table, chain, owner),
        chain[0] == f.reference_scopes@[reference as int],
    ensures
        reference_owner(f, table, reference) == Some(owner),
{
    lemma_chain_suffix_owner(f, table, chain, owner, 0, f.scope_count());
}

/// A walk ends at a symbol that only edges from itself lead to only when
/// that symbol is a root.
proof fn lemma_only_self_edges_unreachable(
    roots: Set<usize>,
    edges: Set<(usize, usize)>,
    walk: Seq<usize>,
    target: usize,
)
    requires
        is_walk(roots, edges, walk),
        walk.last() == target,
        forall|o: usize| #[trigger] edges.contains((o, target)) ==> o == target,
    ensures
        roots.contains(target),
    decreases walk.len(),
{
    if walk.len() > 1 {
        let prefix = walk.drop_last();
        assert(walk_step(edges, walk, walk.len() - 2));
        assert(prefix.last() == target);
        assert forall|k: int| 0 <= k < prefix.len() - 1 implies #[trigger] walk_step(edges, prefix, k) by {
            assert(walk_step(edges, walk, k));
        }
        lemma_only_self_edges_unreachable(roots, edges, prefix, target);
    }
}

/// A candidate that code outside does not observe, that is referenced, and
/// whose every reference sits, at any depth of nested scopes, inside its own
/// body (no other registered function in between), is published dead.
pub proof fn lemma_function_called_only_from_its_own_body_is_dead(
    f: ScopingFacts,
    table: Seq<Option<usize>>,
    candidates: Set<usize>,
    observable: Set<usize>,
    dead: Set<usize>,
    target: usize,
)
    requires
        candidates.contains(target),
        !observable.contains(target),
        f.references_of(target).len() > 0,
        forall|i: int| #![trigger f.references_of(target)[i]] 0 <= i < f.references_of(target).len() ==> exists|chain: Seq<usize>|
            #[trigger] parent_chain_to(f, table, chain, target)
                && chain[0] == f.reference_scopes@[f.references_of(target)[i] as int],
    ensures
        analysis_dead(f, table, candidates, observable, dead).contains(target),
{
    let refs = f.references_of(target);
    assert forall|i: int| 0 <= i < refs.len() implies #[trigger] reference_owner(f, table, refs[i]) == Some(target) by {
        let chain = choose|chain: Seq<usize>| #[trigger] parent_chain_to(f, table, chain, target)
            && chain[0] == f.reference_scopes@[refs[i] as int];
        lemma_reference_owner_is_nearest_registered_ancestor(f, table, refs[i], chain, target);
    }
    assert(reference_owner(f, table, refs[0]) is Some);
    assert(owned_by_function(f, table, target));
    let roots = analysis_roots(f, table, candidates, observable, dead);
    let edges = analysis_edges(f, table, candidates, observable, dead);
    let dropped = dropped_candidates(f, table, candidates, dead);
    assert(!dropped.contains(target));
    assert forall|o: usize| #[trigger] first_edge(f, table, candidates, observable, o, target) implies o == target by {
        let i = choose|i: int| 0 <= i < refs.len() && #[trigger] reference_edge_owner(
            f, table, candidates, observable, refs[i]) == Some(o);
        assert(reference_owner(f, table, refs[i]) == Some(target));
    }
    assert(!rooted_by_reference(f, table, candidates, observable, target)) by {
        if rooted_by_reference(f, table, candidates, observable, target) {
            let i = choose|i: int| 0 <= i < refs.len() && #[trigger] reference_roots(
                f, table, candidates, observable, refs[i]);
            assert(reference_owner(f, table, refs[i]) == Some(target));
        }
    }
    assert(!roots.contains(target));
    assert forall|o: usize| #[trigger] edges.contains((o, target)) implies o == target by {
        assert(first_edge(f, table, candidates, observable, o, target));
    }
    if reachable(roots, edges, target) {
        let walk = choose|walk: Seq<usize>| #[trigger] is_walk(roots, edges, walk) && walk.last() == target;
        lemma_only_self_edges_unreachable(roots, edges, walk, target);
    }
}

/// `chain` climbs the scope tree from `chain[0]` through parents to a scope
/// without a parent, passing no registered scope.
pub open spec fn parent_chain_to_root(f: ScopingFacts, table: Seq<Option<usize>>, chain: Seq<usize>) -> bool {
    &&& 1 <= chain.len()
    &&& forall|i: int| 0 <= i < chain.len() ==> #[trigger] chain[i] < f.scope_count()
    &&& forall|i: int| #![trigger chain[i]] 0 <= i < chain.len() ==> !(chain[i] < table.len() && table[chain[i] as int] is Some)
    &&& forall|i: int| #![trigger chain[i]] 0 <= i < chain.len() - 1 ==> f.scope_parents@[chain[i] as int] == Some(chain[i + 1])
    &&& f.scope_parents@[chain.last() as int] is None
}

proof fn lemma_chain_to_root_no_owner(f: ScopingFacts, table: Seq<Option<usize>>, chain: Seq<usize>, i: int, fuel: nat)
    requires
        parent_chain_to_root(f, table, chain),
        0 <= i < chain.len(),
    ensures
        scope_owner(f, table, chain[i], fuel) is None,
    decreases chain.len() - i,
{
    if fuel > 0 && i < chain.len() - 1 {
        assert(f.scope_parents@[chain[i] as int] == Some(chain[i + 1]));
        lemma_chain_to_root_no_owner(f, table, chain, i + 1, (fuel - 1) as nat);
    }
}

/// A reference with no registered scope anywhere above it sits outside every
/// function declaration.
pub proof fn lemma_reference_outside_functions_has_no_owner(
    f: ScopingFacts,
    table: Seq<Option<usize>>,
    reference: usize,
    chain: Seq<usize>,
)
    requires
        parent_chain_to_root(f, table, chain),
        chain[0] == f.reference_scopes@[reference as int],
    ensures
        reference_owner(f, table, reference) is None,
{
    lemma_chain_to_root_no_owner(f, table, chain, 0, f.scope_count());
}

/// A candidate referenced from code outside every function declaration
/// (no registered scope above the reference) is never published dead.
pub proof fn lemma_function_referenced_from_top_level_code_is_live(
    f: ScopingFacts,
    table: Seq<Option<usize>>,
    candidates: Set<usize>,
    observable: Set<usize>,
    dead: Set<usize>,
    target: usize,
    i: int,
    chain: Seq<usize>,
)
    requires
        0 <= i < f.references_of(target).len(),
        parent_chain_to_root(f, table, chain),
        chain[0] == f.reference_scopes@[f.references_of(target)[i] as int],
    ensures
        !analysis_dead(f, table, candidates, observable, dead).contains(target),
{
    lemma_reference_outside_functions_has_no_owner(f, table, f.references_of(target)[i], chain);
    if candidates.contains(target) {
        assert(reference_roots(f, table, candidates, observable, f.references_of(target)[i]));
        assert(rooted_by_reference(f, table, candidates, observable, target));
        assert(first_roots(f, table, candidates, observable).contains(target));
        lemma_root_reachable(
            analysis_roots(f, table, candidates, observable, dead),
            analysis_edges(f, table, candidates, observable, dead),
            target,
        );
    }
}

/// Which function declarations registration admits: a declaration with a
/// symbol and a body scope whose binding scope is a `var` scope, or a
/// strict-mode scope, becomes a candidate (or, bound in a script's root
/// scope, observable instead); one that is neither, and neither async nor a
/// generator, changes nothing.
pub proof fn lemma_registration_admits_var_or_strict_declarations(
    view: ReachabilityView,
    function: FunctionFacts,
    source_type: ModuleKind,
    scoping: ScopingFacts,
    symbol: usize,
)
    requires
        function.symbol_id == Some(symbol),
        function.scope_id matches Some(scope) && (view.functions matches Some(graph) ==> scope < graph.owners.len())
            && (view.functions is None ==> scope < scoping.scope_count()),
    ensures
        ({
            let flags = scoping.scope_flags@[scoping.symbol_scopes@[symbol as int] as int];
            let after = after_registration(view, function, source_type, scoping);
            let script_root = source_type == ModuleKind::Script && scoping.symbol_scopes@[symbol as int] == 0;
            &&& (crate::flags::is_var_scope(flags) || crate::flags::is_strict_scope(flags) || function.is_async
                || function.is_generator) ==> if script_root {
                after.observable.contains(symbol) && after.functions == view.functions
            } else {
                &&& after.functions matches Some(graph)
                &&& graph.candidates == candidates_of(view).insert(symbol)
                &&& graph.owners[function.scope_id.unwrap() as int] == Some(symbol)
                &&& view.functions matches Some(before) ==> {
                    &&& graph.dead == before.dead
                    &&& graph.owners == before.owners.update(function.scope_id.unwrap() as int, Some(symbol))
                }
                &&& after.observable == view.observable
            }
            &&& (!crate::flags::is_var_scope(flags) && !crate::flags::is_strict_scope(flags) && !function.is_async
                && !function.is_generator) ==> after == view
        }),
{
}

/// Whether deleted references affect the analysis is decided by where they
/// resolve alone: yes exactly when one of them resolves to a candidate,
/// whatever its flags (read, write or type).
pub proof fn lemma_deleted_reference_to_candidate_affects_analysis(
    view: ReachabilityView,
    scoping: ScopingFacts,
    deleted: Set<usize>,
)
    ensures
        deletion_hits_candidate(view, scoping, deleted) <==> (view.functions is Some && exists|reference: usize|
            #[trigger] deleted.contains(reference) && scoping.reference_symbols@[reference as int] is Some
                && view.functions.unwrap().candidates.contains(scoping.reference_symbols@[reference as int].unwrap())),
{
}

/// A local, non-type export list exposes every specifier's binding: for
/// each specifier, not type-only, whose local name resolves through a
/// reference that is not type-only to a symbol, that symbol is exposed.
pub proof fn lemma_every_listed_export_is_exposed(declaration: NamedExportFacts, scoping: ScopingFacts, i: int)
    requires
        !declaration.has_source,
        !declaration.is_type,
        0 <= i < declaration.specifiers@.len(),
    ensures
        ({
            let specifier = declaration.specifiers@[i];
            let reference = specifier.local_reference.unwrap();
            (!specifier.is_type && specifier.local_reference is Some
                && !crate::flags::is_type_only_reference(scoping.reference_flags@[reference as int])
                && scoping.reference_symbols@[reference as int] is Some) ==> named_export_symbols(
                declaration,
                scoping,
            ).contains(scoping.reference_symbols@[reference as int].unwrap())
        }),
{
    let specifier = declaration.specifiers@[i];
    if !specifier.is_type && specifier.local_reference is Some {
        let reference = specifier.local_reference.unwrap();
        if !crate::flags::is_type_only_reference(scoping.reference_flags@[reference as int])
            && scoping.reference_symbols@[reference as int] is Some {
            assert(crate::hooks::specifier_export(declaration.specifiers@[i], scoping)
                == scoping.reference_symbols@[reference as int]);
        }
    }
}

/// What a named export exposes, from its parts: the names of a non-type
/// inner declaration, and, for a local non-type list, the symbol each
/// non-type specifier's local reference resolves to when that reference is
/// not type-only. Nothing else; a re-export (`from '..'`) or a type-only
/// export list exposes no local binding.
pub proof fn lemma_named_export_exposes_exactly_its_bindings(declaration: NamedExportFacts, scoping: ScopingFacts, symbol: usize)
    ensures
        named_export_symbols(declaration, scoping).contains(symbol) <==> {
            ||| !declaration.is_type && declaration.declaration is Some && exists|k: int|
                0 <= k < declaration.declaration.unwrap()@.len() && #[trigger] declaration.declaration.unwrap()@[k] == Some(symbol)
            ||| !declaration.is_type && !declaration.has_source && exists|k: int|
                #![trigger declaration.specifiers@[k]]
                0 <= k < declaration.specifiers@.len() && !declaration.specifiers@[k].is_type
                    && declaration.specifiers@[k].local_reference is Some
                    && !crate::flags::is_type_only_reference(
                        scoping.reference_flags@[declaration.specifiers@[k].local_reference.unwrap() as int],
                    )
                    && scoping.reference_symbols@[declaration.specifiers@[k].local_reference.unwrap() as int] == Some(symbol)
        },
{
    if named_export_symbols(declaration, scoping).contains(symbol) && !crate::hooks::declared_export_symbols(declaration).contains(symbol) {
        let k = choose|k: int| 0 <= k < declaration.specifiers@.len() && #[trigger] crate::hooks::specifier_export(
            declaration.specifiers@[k], scoping) == Some(symbol);
        assert(declaration.specifiers@[k] == declaration.specifiers@[k]);
    }
    if !declaration.is_type && !declaration.has_source && exists|k: int|
        #![trigger declaration.specifiers@[k]]
        0 <= k < declaration.specifiers@.len() && !declaration.specifiers@[k].is_type
            && declaration.specifiers@[k].local_reference is Some
            && !crate::flags::is_type_only_reference(
                scoping.reference_flags@[declaration.specifiers@[k].local_reference.unwrap() as int],
            )
            && scoping.reference_symbols@[declaration.specifiers@[k].local_reference.unwrap() as int] == Some(symbol) {
        let k = choose|k: int|
            #![trigger declaration.specifiers@[k]]
            0 <= k < declaration.specifiers@.len() && !declaration.specifiers@[k].is_type
                && declaration.specifiers@[k].local_reference is Some
                && !crate::flags::is_type_only_reference(
                    scoping.reference_flags@[declaration.specifiers@[k].local_reference.unwrap() as int],
                )
                && scoping.reference_symbols@[declaration.specifiers@[k].local_reference.unwrap() as int] == Some(symbol);
        assert(crate::hooks::specifier_export(declaration.specifiers@[k], scoping) == Some(symbol));
    }
}

/// In a script, the bindings observable from the start are exactly the
/// symbols declared in the root scope: one declared in any other scope is
/// not observable.
pub proof fn lemma_script_starts_with_root_bindings_observable(scoping: ScopingFacts, symbol: usize)
    ensures
        crate::reachability::root_symbols(scoping).contains(symbol) <==> (symbol < scoping.symbol_count()
            && scoping.symbol_scopes@[symbol as int] == 0),
        scoping.symbol_scopes@[symbol as int] != 0 ==> !crate::reachability::root_symbols(scoping).contains(symbol),
{
}

/// Owners depend on the scope tree alone.
proof fn lemma_scope_owner_depends_on_tree(
    f: ScopingFacts,
    g: ScopingFacts,
    table: Seq<Option<usize>>,
    scope: usize,
    fuel: nat,
)
    requires
        g.scope_parents@ == f.scope_parents@,
    ensures
        scope_owner(g, table, scope, fuel) == scope_owner(f, table, scope, fuel),
    decreases fuel,
{
    if fuel > 0 && !(scope < table.len() && table[scope as int] is Some) && scope < f.scope_count() {
        match f.scope_parents@[scope as int] {
            Some(parent) => lemma_scope_owner_depends_on_tree(f, g, table, parent, (fuel - 1) as nat),
            None => {},
        }
    }
}

/// Deleting (or adding) references to a symbol that is neither a candidate
/// nor registered for any scope changes nothing the analysis reads: it
/// publishes the same candidates and the same dead set. (Deleting the last
/// reference to a registered function that left the graph can change a
/// root: the function becomes count-dead, and its body no longer roots the
/// candidates it references.)
pub proof fn lemma_pruning_unregistered_symbols_keeps_analysis(
    f: ScopingFacts,
    g: ScopingFacts,
    table: Seq<Option<usize>>,
    candidates: Set<usize>,
    observable: Set<usize>,
    dead: Set<usize>,
    symbol: usize,
)
    requires
        g.scope_parents@ == f.scope_parents@,
        g.reference_scopes@ == f.reference_scopes@,
        g.resolved_references@.len() == f.resolved_references@.len(),
        forall|s: usize| s != symbol && s < f.resolved_references@.len() ==> #[trigger] g.references_of(s) == f.references_of(s),
        forall|t: usize| #[trigger] candidates.contains(t) ==> t < f.resolved_references@.len(),
        !candidates.contains(symbol),
        forall|scope: int| 0 <= scope < table.len() && #[trigger] table[scope] is Some
            ==> table[scope].unwrap() < f.resolved_references@.len() && table[scope].unwrap() != symbol,
    ensures
        remaining_candidates(g, table, candidates, dead) == remaining_candidates(f, table, candidates, dead),
        analysis_dead(g, table, candidates, observable, dead) == analysis_dead(f, table, candidates, observable, dead),
{
    assert forall|r: usize| #[trigger] reference_owner(g, table, r) == reference_owner(f, table, r) by {
        lemma_scope_owner_depends_on_tree(f, g, table, f.reference_scopes@[r as int], f.scope_count());
    }
    assert forall|r: usize| #[trigger] reference_roots(g, table, candidates, observable, r) == reference_roots(
        f, table, candidates, observable, r) by {
        assert(reference_owner(g, table, r) == reference_owner(f, table, r));
        if reference_owner(f, table, r) is Some {
            crate::graph::lemma_scope_owner_registered(f, table, f.reference_scopes@[r as int], f.scope_count());
            let owner = reference_owner(f, table, r).unwrap();
            assert(g.references_of(owner) == f.references_of(owner));
        }
    }
    assert forall|r: usize| #[trigger] reference_edge_owner(g, table, candidates, observable, r) == reference_edge_owner(
        f, table, candidates, observable, r) by {
        assert(reference_owner(g, table, r) == reference_owner(f, table, r));
    }
    let dropped_f = dropped_candidates(f, table, candidates, dead);
    let dropped_g = dropped_candidates(g, table, candidates, dead);
    assert forall|t: usize| #[trigger] dropped_g.contains(t) == dropped_f.contains(t) by {
        if candidates.contains(t) {
            assert(g.references_of(t) == f.references_of(t));
            if owned_by_function(f, table, t) {
                let i = choose|i: int| 0 <= i < f.references_of(t).len() && #[trigger] reference_owner(
                    f, table, f.references_of(t)[i]) is Some;
                assert(reference_owner(g, table, g.references_of(t)[i]) is Some);
            }
            if owned_by_function(g, table, t) {
                let i = choose|i: int| 0 <= i < g.references_of(t).len() && #[trigger] reference_owner(
                    g, table, g.references_of(t)[i]) is Some;
                assert(reference_owner(f, table, f.references_of(t)[i]) is Some);
            }
        }
    }
    assert(dropped_g =~= dropped_f);
    assert forall|o: usize, t: usize| #[trigger] first_edge(g, table, candidates, observable, o, t) == first_edge(
        f, table, candidates, observable, o, t) by {
        if candidates.contains(t) {
            assert(g.references_of(t) == f.references_of(t));
            if first_edge(f, table, candidates, observable, o, t) {
                let i = choose|i: int| 0 <= i < f.references_of(t).len() && #[trigger] reference_edge_owner(
                    f, table, candidates, observable, f.references_of(t)[i]) == Some(o);
                assert(reference_edge_owner(g, table, candidates, observable, g.references_of(t)[i]) == Some(o));
            }
            if first_edge(g, table, candidates, observable, o, t) {
                let i = choose|i: int| 0 <= i < g.references_of(t).len() && #[trigger] reference_edge_owner(
                    g, table, candidates, observable, g.references_of(t)[i]) == Some(o);
                assert(reference_edge_owner(f, table, candidates, observable, f.references_of(t)[i]) == Some(o));
            }
        }
    }
    let first_f = first_roots(f, table, candidates, observable);
    let first_g = first_roots(g, table, candidates, observable);
    assert forall|t: usize| #[trigger] first_g.contains(t) == first_f.contains(t) by {
        if candidates.contains(t) {
            assert(g.references_of(t) == f.references_of(t));
            if rooted_by_reference(f, table, candidates, observable, t) {
                let i = choose|i: int| 0 <= i < f.references_of(t).len() && #[trigger] reference_roots(
                    f, table, candidates, observable, f.references_of(t)[i]);
                assert(reference_roots(g, table, candidates, observable, g.references_of(t)[i]));
            }
            if rooted_by_reference(g, table, candidates, observable, t) {
                let i = choose|i: int| 0 <= i < g.references_of(t).len() && #[trigger] reference_roots(
                    g, table, candidates, observable, g.references_of(t)[i]);
                assert(reference_roots(f, table, candidates, observable, f.references_of(t)[i]));
            }
        }
    }
    let roots_f = analysis_roots(f, table, candidates, observable, dead);
    let roots_g = analysis_roots(g, table, candidates, observable, dead);
    assert forall|t: usize| #[trigger] roots_g.contains(t) == roots_f.contains(t) by {
        if exists|o: usize| #[trigger] first_edge(f, table, candidates, observable, o, t) && dropped_f.contains(o)
            && !f.is_unused(o) {
            let o = choose|o: usize| #[trigger] first_edge(f, table, candidates, observable, o, t) && dropped_f.contains(o)
                && !f.is_unused(o);
            assert(g.references_of(o) == f.references_of(o));
            assert(first_edge(g, table, candidates, observable, o, t));
        }
        if exists|o: usize| #[trigger] first_edge(g, table, candidates, observable, o, t) && dropped_g.contains(o)
            && !g.is_unused(o) {
            let o = choose|o: usize| #[trigger] first_edge(g, table, candidates, observable, o, t) && dropped_g.contains(o)
                && !g.is_unused(o);
            assert(g.references_of(o) == f.references_of(o));
            assert(first_edge(f, table, candidates, observable, o, t));
        }
    }
    assert(roots_g =~= roots_f);
    let edges_f = analysis_edges(f, table, candidates, observable, dead);
    let edges_g = analysis_edges(g, table, candidates, observable, dead);
    assert forall|e: (usize, usize)| #[trigger] edges_g.contains(e) == edges_f.contains(e) by {
        assert(first_edge(g, table, candidates, observable, e.0, e.1) == first_edge(f, table, candidates, observable, e.0, e.1));
    }
    assert(edges_g =~= edges_f);
    assert(remaining_candidates(g, table, candidates, dead) =~= remaining_candidates(f, table, candidates, dead));
    assert(analysis_dead(g, table, candidates, observable, dead) =~= analysis_dead(f, table, candidates, observable, dead));
}

} // verus!
