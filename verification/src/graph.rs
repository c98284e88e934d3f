//! The recursive-function graph: which registered function declarations can
//! be reached from code that runs.
use crate::arena::{
    bitset_clear, bitset_contains, bitset_new, bitset_ones, bitset_set, bitset_unset,
    bits_bounded, edge_list, edge_list_clear, edge_list_get, edge_list_len, edge_list_limit,
    edge_list_new, edge_list_partition_point, edge_list_push, edge_list_retain_owners_outside,
    edge_list_sort_by_owner, members, root_stack, root_stack_clear, root_stack_limit,
    root_stack_new, root_stack_pop, root_stack_push, sorted_by_owner,
    bitset_capacity, bitset_capacity_of,
};
use crate::ids::{
    owner_table, owner_table_get, owner_table_resize, owner_table_set,
    owner_table_with_capacity, owner_table_len, OwnerTable,
};
use crate::flags::{has_direct_eval, scope_flags_contains_direct_eval};
use crate::scoping::{id_space_limit, ScopingFacts};
use oxc_allocator::{Allocator, ArenaVec, BitSet};
use vstd::prelude::*;

verus! {

/// A set of symbols that all lie below `n` is finite and has at most `n` members.
pub proof fn lemma_bounded_set_len(s: Set<usize>, n: usize)
    requires
        forall|x: usize| #[trigger] s.contains(x) ==> x < n,
    ensures
        s.finite(),
        s.len() <= n,
    decreases n,
{
    if n == 0 {
        assert(s =~= Set::empty());
    } else {
        let m = (n - 1) as usize;
        let rest = s.remove(m);
        lemma_bounded_set_len(rest, m);
        if s.contains(m) {
            assert(s =~= rest.insert(m));
        } else {
            assert(s =~= rest);
        }
    }
}

/// Such a set that misses some `x < n` has fewer than `n` members.
pub proof fn lemma_bounded_set_len_missing(s: Set<usize>, n: usize, x: usize)
    requires
        forall|y: usize| #[trigger] s.contains(y) ==> y < n,
        x < n,
        !s.contains(x),
    ensures
        s.finite(),
        s.len() < n,
{
    lemma_bounded_set_len(s, n);
    lemma_bounded_set_len(s.insert(x), n);
}

/// Step `i` of `walk` follows an edge.
pub open spec fn walk_step(edges: Set<(usize, usize)>, walk: Seq<usize>, i: int) -> bool {
    edges.contains((walk[i], walk[i + 1]))
}

/// `walk` starts at a root and follows edges from each symbol to the next.
pub open spec fn is_walk(roots: Set<usize>, edges: Set<(usize, usize)>, walk: Seq<usize>) -> bool {
    &&& walk.len() >= 1
    &&& roots.contains(walk[0])
    &&& forall|i: int| 0 <= i < walk.len() - 1 ==> #[trigger] walk_step(edges, walk, i)
}

/// Some walk from a root along the edges ends at `symbol`.
pub open spec fn reachable(roots: Set<usize>, edges: Set<(usize, usize)>, symbol: usize) -> bool {
    exists|walk: Seq<usize>| #[trigger] is_walk(roots, edges, walk) && walk.last() == symbol
}

/// The edges of a list whose owner is one of `owners`.
pub open spec fn edges_from(edges: Seq<(usize, usize)>, owners: Set<usize>) -> Set<(usize, usize)> {
    Set::new(|edge: (usize, usize)| edges.contains(edge) && owners.contains(edge.0))
}

/// A set that holds the roots and is closed under the edges holds every
/// symbol reachable from the roots.
pub proof fn lemma_closed_holds_reachable(
    roots: Set<usize>,
    edges: Set<(usize, usize)>,
    closed: Set<usize>,
    walk: Seq<usize>,
)
    requires
        roots.subset_of(closed),
        forall|a: usize, b: usize| closed.contains(a) && #[trigger] edges.contains((a, b)) ==> closed.contains(b),
        is_walk(roots, edges, walk),
    ensures
        closed.contains(walk.last()),
    decreases walk.len(),
{
    if walk.len() > 1 {
        let prefix = walk.drop_last();
        assert forall|i: int| 0 <= i < prefix.len() - 1 implies #[trigger] walk_step(edges, prefix, i) by {
            assert(walk_step(edges, walk, i));
        }
        lemma_closed_holds_reachable(roots, edges, closed, prefix);
        assert(walk_step(edges, walk, walk.len() - 2));
    }
}

/// Extending a walk to `symbol` by one more edge gives a walk.
pub proof fn lemma_walk_extend(roots: Set<usize>, edges: Set<(usize, usize)>, from: usize, symbol: usize)
    requires
        reachable(roots, edges, from),
        edges.contains((from, symbol)),
    ensures
        reachable(roots, edges, symbol),
{
    let walk = choose|walk: Seq<usize>| #[trigger] is_walk(roots, edges, walk) && walk.last() == from;
    let longer = walk.push(symbol);
    assert forall|i: int| 0 <= i < longer.len() - 1 implies #[trigger] walk_step(edges, longer, i) by {
        if i < walk.len() - 1 {
            assert(walk_step(edges, walk, i));
        }
    }
    assert(is_walk(roots, edges, longer));
}

/// A root is reachable by the walk that holds it alone.
pub proof fn lemma_root_reachable(roots: Set<usize>, edges: Set<(usize, usize)>, symbol: usize)
    requires
        roots.contains(symbol),
    ensures
        reachable(roots, edges, symbol),
{
    let walk = seq![symbol];
    assert(is_walk(roots, edges, walk));
}

/// The function declaration that owns `scope`: the first registered scope on
/// its ancestor chain, looking at most `fuel` scopes up. In a scope tree of
/// `n` scopes every chain has at most `n` members, so a fuel of `n` walks
/// the whole chain.
pub open spec fn scope_owner(f: ScopingFacts, table: Seq<Option<usize>>, scope: usize, fuel: nat) -> Option<usize>
    decreases fuel,
{
    if fuel == 0 {
        None
    } else if scope < table.len() && table[scope as int] is Some {
        table[scope as int]
    } else if scope < f.scope_count() {
        match f.scope_parents@[scope as int] {
            Some(parent) => scope_owner(f, table, parent, (fuel - 1) as nat),
            None => None,
        }
    } else {
        None
    }
}

/// The function declaration whose body holds `reference`, if any.
pub open spec fn reference_owner(f: ScopingFacts, table: Seq<Option<usize>>, reference: usize) -> Option<usize> {
    scope_owner(f, table, f.reference_scopes@[reference as int], f.scope_count())
}

/// Whether `reference`, resolved to a candidate, makes that candidate a root:
/// it sits outside every function, in an observable function, or in a
/// non-candidate function that is observable or still referenced.
pub open spec fn reference_roots(
    f: ScopingFacts,
    table: Seq<Option<usize>>,
    candidates: Set<usize>,
    observable: Set<usize>,
    reference: usize,
) -> bool {
    match reference_owner(f, table, reference) {
        None => true,
        Some(owner) => if candidates.contains(owner) {
            observable.contains(owner)
        } else {
            observable.contains(owner) || !f.is_unused(owner)
        },
    }
}

/// The candidate whose body holds `reference`, when that makes the reference
/// a graph edge: the owner is a candidate that is not observable.
pub open spec fn reference_edge_owner(
    f: ScopingFacts,
    table: Seq<Option<usize>>,
    candidates: Set<usize>,
    observable: Set<usize>,
    reference: usize,
) -> Option<usize> {
    match reference_owner(f, table, reference) {
        Some(owner) => if candidates.contains(owner) && !observable.contains(owner) {
            Some(owner)
        } else {
            None
        },
        None => None,
    }
}

/// Some reference to `target` sits inside a function declaration.
pub open spec fn owned_by_function(f: ScopingFacts, table: Seq<Option<usize>>, target: usize) -> bool {
    exists|i: int|
        0 <= i < f.references_of(target).len() && #[trigger] reference_owner(
            f,
            table,
            f.references_of(target)[i],
        ) is Some
}

/// Some reference to `target` makes it a root.
pub open spec fn rooted_by_reference(
    f: ScopingFacts,
    table: Seq<Option<usize>>,
    candidates: Set<usize>,
    observable: Set<usize>,
    target: usize,
) -> bool {
    exists|i: int|
        0 <= i < f.references_of(target).len() && #[trigger] reference_roots(
            f,
            table,
            candidates,
            observable,
            f.references_of(target)[i],
        )
}

/// The candidates that are roots before any edge is followed: the observable
/// ones and those with a rooting reference.
pub open spec fn first_roots(
    f: ScopingFacts,
    table: Seq<Option<usize>>,
    candidates: Set<usize>,
    observable: Set<usize>,
) -> Set<usize> {
    Set::new(
        |target: usize|
            candidates.contains(target) && (observable.contains(target) || rooted_by_reference(
                f,
                table,
                candidates,
                observable,
                target,
            )),
    )
}

/// `owner` references the candidate `target` from its body, and that
/// reference is a graph edge.
pub open spec fn first_edge(
    f: ScopingFacts,
    table: Seq<Option<usize>>,
    candidates: Set<usize>,
    observable: Set<usize>,
    owner: usize,
    target: usize,
) -> bool {
    candidates.contains(target) && exists|i: int|
        0 <= i < f.references_of(target).len() && #[trigger] reference_edge_owner(
            f,
            table,
            candidates,
            observable,
            f.references_of(target)[i],
        ) == Some(owner)
}

/// The candidates that leave the graph: no reference to them sits inside a
/// function, and they are not already dead.
pub open spec fn dropped_candidates(
    f: ScopingFacts,
    table: Seq<Option<usize>>,
    candidates: Set<usize>,
    dead: Set<usize>,
) -> Set<usize> {
    Set::new(
        |target: usize|
            candidates.contains(target) && !owned_by_function(f, table, target) && !dead.contains(target),
    )
}

/// The roots of the reachability: the first roots, and every target of an
/// edge from a dropped candidate that is still referenced.
pub open spec fn analysis_roots(
    f: ScopingFacts,
    table: Seq<Option<usize>>,
    candidates: Set<usize>,
    observable: Set<usize>,
    dead: Set<usize>,
) -> Set<usize> {
    Set::new(
        |target: usize|
            first_roots(f, table, candidates, observable).contains(target) || exists|owner: usize|
                #[trigger] first_edge(f, table, candidates, observable, owner, target)
                    && dropped_candidates(f, table, candidates, dead).contains(owner) && !f.is_unused(owner),
    )
}

/// The edges that reachability follows: those whose owner stays a candidate.
pub open spec fn analysis_edges(
    f: ScopingFacts,
    table: Seq<Option<usize>>,
    candidates: Set<usize>,
    observable: Set<usize>,
    dead: Set<usize>,
) -> Set<(usize, usize)> {
    Set::new(
        |edge: (usize, usize)|
            first_edge(f, table, candidates, observable, edge.0, edge.1) && !dropped_candidates(
                f,
                table,
                candidates,
                dead,
            ).contains(edge.0),
    )
}

/// The candidates after an analysis: the dropped ones leave for good.
pub open spec fn remaining_candidates(
    f: ScopingFacts,
    table: Seq<Option<usize>>,
    candidates: Set<usize>,
    dead: Set<usize>,
) -> Set<usize> {
    candidates.difference(dropped_candidates(f, table, candidates, dead))
}

/// The dead set an analysis publishes: the remaining candidates that no walk
/// from a root reaches.
pub open spec fn analysis_dead(
    f: ScopingFacts,
    table: Seq<Option<usize>>,
    candidates: Set<usize>,
    observable: Set<usize>,
    dead: Set<usize>,
) -> Set<usize> {
    Set::new(
        |target: usize|
            remaining_candidates(f, table, candidates, dead).contains(target) && !reachable(
                analysis_roots(f, table, candidates, observable, dead),
                analysis_edges(f, table, candidates, observable, dead),
                target,
            ),
    )
}

/// An owner is always a symbol registered in the table.
pub proof fn lemma_scope_owner_registered(f: ScopingFacts, table: Seq<Option<usize>>, scope: usize, fuel: nat)
    requires
        scope_owner(f, table, scope, fuel) is Some,
    ensures
        exists|s: int| 0 <= s < table.len() && #[trigger] table[s] == scope_owner(f, table, scope, fuel),
    decreases fuel,
{
    if fuel > 0 {
        if scope < table.len() && table[scope as int] is Some {
            assert(table[scope as int] == scope_owner(f, table, scope, fuel));
        } else if scope < f.scope_count() {
            match f.scope_parents@[scope as int] {
                Some(parent) => lemma_scope_owner_registered(f, table, parent, (fuel - 1) as nat),
                None => {},
            }
        }
    }
}

/// Private allocation buffers reused by every analysis.
struct GraphScratch<'a> {
    live: BitSet<'a>,
    roots: ArenaVec<'a, usize>,
    edges: ArenaVec<'a, (usize, usize)>,
    next_dead: BitSet<'a>,
}

impl<'a> GraphScratch<'a> {
    /// Both bit sets hold `n` bits; the worklist holds distinct live symbols.
    spec fn wf(&self, n: usize) -> bool {
        &&& bitset_capacity(self.live) == n
        &&& bits_bounded(self.live)
        &&& bitset_capacity(self.next_dead) == n
        &&& bits_bounded(self.next_dead)
        &&& n < root_stack_limit()
        &&& root_stack(self.roots).no_duplicates()
        &&& forall|i: int|
            0 <= i < root_stack(self.roots).len() ==> #[trigger] members(self.live).contains(
                root_stack(self.roots)[i],
            )
    }

    fn new(symbols_len: usize, allocator: &'a Allocator) -> (scratch: Self)
        requires
            symbols_len < root_stack_limit(),
        ensures
            scratch.wf(symbols_len),
            members(scratch.live) == Set::<usize>::empty(),
            members(scratch.next_dead) == Set::<usize>::empty(),
            root_stack(scratch.roots) == Seq::<usize>::empty(),
            edge_list(scratch.edges) == Seq::<(usize, usize)>::empty(),
    {
        let scratch = GraphScratch {
            live: bitset_new(symbols_len, allocator),
            roots: root_stack_new(allocator),
            edges: edge_list_new(allocator),
            next_dead: bitset_new(symbols_len, allocator),
        };
        assert(members(scratch.live) =~= Set::<usize>::empty());
        assert(members(scratch.next_dead) =~= Set::<usize>::empty());
        scratch
    }

    fn reset(&mut self)
        requires
            old(self).wf(bitset_capacity(old(self).live)),
        ensures
            final(self).wf(bitset_capacity(old(self).live)),
            members(final(self).live) == Set::<usize>::empty(),
            members(final(self).next_dead) == Set::<usize>::empty(),
            root_stack(final(self).roots) == Seq::<usize>::empty(),
            edge_list(final(self).edges) == Seq::<(usize, usize)>::empty(),
    {
        bitset_clear(&mut self.live);
        root_stack_clear(&mut self.roots);
        edge_list_clear(&mut self.edges);
        bitset_clear(&mut self.next_dead);
        assert(members(self.live) =~= Set::<usize>::empty());
        assert(members(self.next_dead) =~= Set::<usize>::empty());
    }

    /// Marks `symbol` live and, the first time, queues it for propagation.
    fn mark_live_root(&mut self, symbol: usize)
        requires
            old(self).wf(bitset_capacity(old(self).live)),
            symbol < bitset_capacity(old(self).live),
        ensures
            final(self).wf(bitset_capacity(old(self).live)),
            members(final(self).live) == members(old(self).live).insert(symbol),
            root_stack(final(self).roots) == (if members(old(self).live).contains(symbol) {
                root_stack(old(self).roots)
            } else {
                root_stack(old(self).roots).push(symbol)
            }),
            root_stack(final(self).roots).no_duplicates(),
            forall|i: int| 0 <= i < root_stack(final(self).roots).len()
                ==> #[trigger] members(final(self).live).contains(root_stack(final(self).roots)[i]),
            final(self).next_dead == old(self).next_dead,
            final(self).edges == old(self).edges,
    {
        let ghost n = bitset_capacity(self.live);
        if !bitset_contains(&self.live, symbol) {
            proof {
                let live = members(self.live);
                let stack = root_stack(self.roots);
                lemma_bounded_set_len_missing(live, n, symbol);
                stack.unique_seq_to_set();
                assert(stack.to_set().subset_of(live));
                vstd::set_lib::lemma_len_subset(stack.to_set(), live);
            }
            bitset_set(&mut self.live, symbol);
            root_stack_push(&mut self.roots, symbol);
            proof {
                let stack = root_stack(self.roots);
                assert forall|i: int, j: int| 0 <= i < j < stack.len() implies stack[i] != stack[j] by {
                    if j == stack.len() - 1 {
                        assert(members(old(self).live).contains(stack[i]));
                    }
                }
            }
        }
        assert(members(self.live) =~= members(old(self).live).insert(symbol));
    }

    /// Marks live, from the queued roots, every symbol that the edges owned by
    /// `candidates` lead to.
    fn propagate(&mut self, candidates: &BitSet)
        requires
            old(self).wf(bitset_capacity(old(self).live)),
            forall|x: usize| #[trigger] members(old(self).live).contains(x) ==> root_stack(old(self).roots).contains(x),
            forall|i: int| 0 <= i < edge_list(old(self).edges).len()
                ==> #[trigger] edge_list(old(self).edges)[i].1 < bitset_capacity(old(self).live),
        ensures
            final(self).wf(bitset_capacity(old(self).live)),
            root_stack(final(self).roots) == Seq::<usize>::empty(),
            final(self).next_dead == old(self).next_dead,
            edge_list(final(self).edges).to_multiset() == edge_list(old(self).edges).to_multiset(),
            sorted_by_owner(edge_list(final(self).edges)),
            forall|x: usize| #[trigger] members(final(self).live).contains(x) <==> reachable(
                members(old(self).live),
                edges_from(edge_list(old(self).edges), members(*candidates)),
                x,
            ),
    {
        let ghost n = bitset_capacity(self.live);
        let ghost roots0 = members(self.live);
        let ghost edges0 = edge_list(self.edges);
        let ghost graph = edges_from(edges0, members(*candidates));
        edge_list_sort_by_owner(&mut self.edges);
        let ghost sorted = edge_list(self.edges);
        proof {
            broadcast use vstd::seq_lib::group_to_multiset_ensures;
            assert forall|i: int| 0 <= i < sorted.len() implies #[trigger] sorted[i].1 < n by {
                assert(sorted.to_multiset().count(sorted[i]) > 0);
                assert(edges0.contains(sorted[i]));
            }
            assert forall|x: usize| #[trigger] members(self.live).contains(x) implies reachable(roots0, graph, x) by {
                lemma_root_reachable(roots0, graph, x);
            }
        }
        loop
            invariant
                self.wf(n),
                bitset_capacity(self.live) == n,
                edge_list(self.edges) == sorted,
                sorted_by_owner(sorted),
                sorted.to_multiset() == edges0.to_multiset(),
                forall|i: int| 0 <= i < sorted.len() ==> #[trigger] sorted[i].1 < n,
                self.next_dead == old(self).next_dead,
                graph == edges_from(edges0, members(*candidates)),
                roots0.subset_of(members(self.live)),
                forall|x: usize| #[trigger] members(self.live).contains(x) ==> reachable(roots0, graph, x),
                forall|a: usize, b: usize|
                    members(self.live).contains(a) && !root_stack(self.roots).contains(a) && #[trigger] graph.contains((a, b))
                        ==> members(self.live).contains(b),
            ensures
                self.wf(n),
                root_stack(self.roots) == Seq::<usize>::empty(),
                edge_list(self.edges) == sorted,
                self.next_dead == old(self).next_dead,
                roots0.subset_of(members(self.live)),
                forall|x: usize| #[trigger] members(self.live).contains(x) ==> reachable(roots0, graph, x),
                forall|a: usize, b: usize|
                    members(self.live).contains(a) && #[trigger] graph.contains((a, b)) ==> members(self.live).contains(b),
            decreases n - members(self.live).len(), root_stack(self.roots).len(),
        {
            let ghost stack_before = root_stack(self.roots);
            let ghost live_before = members(self.live);
            proof {
                lemma_bounded_set_len(live_before, n);
            }
            let popped = root_stack_pop(&mut self.roots);
            let symbol = match popped {
                Some(symbol) => symbol,
                None => {
                    assert(stack_before =~= Seq::<usize>::empty());
                    break;
                },
            };
            proof {
                assert(stack_before == root_stack(self.roots).push(symbol));
                assert(live_before.contains(symbol)) by {
                    assert(members(self.live).contains(stack_before[stack_before.len() - 1]));
                }
                assert forall|i: int, j: int| 0 <= i < j < root_stack(self.roots).len()
                    implies root_stack(self.roots)[i] != root_stack(self.roots)[j] by {
                    assert(root_stack(self.roots)[i] == stack_before[i]);
                    assert(root_stack(self.roots)[j] == stack_before[j]);
                }
                assert forall|i: int| 0 <= i < root_stack(self.roots).len()
                    implies #[trigger] members(self.live).contains(root_stack(self.roots)[i]) by {
                    assert(root_stack(self.roots)[i] == stack_before[i]);
                }
                assert(!root_stack(self.roots).contains(symbol)) by {
                    if root_stack(self.roots).contains(symbol) {
                        let k = choose|k: int| 0 <= k < root_stack(self.roots).len() && root_stack(self.roots)[k] == symbol;
                        assert(stack_before[k] == stack_before[stack_before.len() - 1]);
                    }
                }
                assert forall|a: usize| #[trigger] root_stack(self.roots).contains(a) implies stack_before.contains(a) by {
                    let k = choose|k: int| 0 <= k < root_stack(self.roots).len() && root_stack(self.roots)[k] == a;
                    assert(stack_before[k] == a);
                }
            }
            if !bitset_contains(candidates, symbol) {
                proof {
                    assert forall|a: usize, b: usize|
                        members(self.live).contains(a) && !root_stack(self.roots).contains(a) && #[trigger] graph.contains((a, b))
                        implies members(self.live).contains(b) by {
                        if a != symbol {
                            assert(!stack_before.contains(a)) by {
                                if stack_before.contains(a) {
                                    let k = choose|k: int| 0 <= k < stack_before.len() && stack_before[k] == a;
                                    if k < stack_before.len() - 1 {
                                        assert(root_stack(self.roots)[k] == a);
                                    }
                                }
                            }
                        }
                    }
                }
                continue;
            }
            let start = edge_list_partition_point(&self.edges, symbol);
            let len = edge_list_len(&self.edges);
            let mut index = start;
            while index < len && edge_list_get(&self.edges, index).0 == symbol
                invariant
                    self.wf(n),
                    bitset_capacity(self.live) == n,
                    edge_list(self.edges) == sorted,
                    len == sorted.len(),
                    sorted_by_owner(sorted),
                    forall|i: int| 0 <= i < sorted.len() ==> #[trigger] sorted[i].1 < n,
                    self.next_dead == old(self).next_dead,
                    start <= index <= len,
                    forall|i: int| 0 <= i < start ==> #[trigger] sorted[i].0 < symbol,
                    forall|i: int| start <= i < sorted.len() ==> #[trigger] sorted[i].0 >= symbol,
                    forall|i: int| #![trigger sorted[i]] start <= i < index ==> sorted[i].0 == symbol
                        && members(self.live).contains(sorted[i].1),
                    members(self.live).contains(symbol),
                    !root_stack(self.roots).contains(symbol),
                    live_before.subset_of(members(self.live)),
                    forall|x: usize| #[trigger] members(self.live).contains(x) ==> reachable(roots0, graph, x),
                    forall|a: usize, b: usize|
                        members(self.live).contains(a) && a != symbol && !root_stack(self.roots).contains(a)
                            && #[trigger] graph.contains((a, b)) ==> members(self.live).contains(b),
                    forall|a: usize| #[trigger] root_stack(self.roots).contains(a)
                        ==> stack_before.contains(a) || !live_before.contains(a),
                    members(*candidates).contains(symbol),
                    sorted.to_multiset() == edges0.to_multiset(),
                    graph == edges_from(edges0, members(*candidates)),
                decreases len - index,
            {
                let target = edge_list_get(&self.edges, index).1;
                let ghost live_now = members(self.live);
                let ghost stack_now = root_stack(self.roots);
                proof {
                    broadcast use vstd::seq_lib::group_to_multiset_ensures;
                    assert(sorted.to_multiset().count(sorted[index as int]) > 0);
                    assert(edges0.contains((symbol, target)));
                    assert(graph.contains((symbol, target)));
                    lemma_walk_extend(roots0, graph, symbol, target);
                }
                self.mark_live_root(target);
                proof {
                    assert(sorted[index as int].0 == symbol);
                    assert forall|i: int| #![trigger sorted[i]] start <= i < index + 1 implies sorted[i].0 == symbol
                        && members(self.live).contains(sorted[i].1) by {
                        if i < index {
                            assert(sorted[i].0 == symbol);
                            assert(live_now.contains(sorted[i].1));
                        }
                    }
                    assert forall|a: usize| #[trigger] root_stack(self.roots).contains(a)
                        implies stack_before.contains(a) || !live_before.contains(a) by {
                        if !stack_now.contains(a) {
                            assert(a == target);
                            assert(!live_now.contains(target));
                        }
                    }
                    assert forall|a: usize, b: usize|
                        members(self.live).contains(a) && a != symbol && !root_stack(self.roots).contains(a)
                            && #[trigger] graph.contains((a, b)) implies members(self.live).contains(b) by {
                        if !live_now.contains(target) {
                            assert(root_stack(self.roots).contains(target)) by {
                                assert(root_stack(self.roots)[root_stack(self.roots).len() - 1] == target);
                            }
                        }
                        if a != target {
                            assert(!stack_now.contains(a)) by {
                                if stack_now.contains(a) {
                                    let k = choose|k: int| 0 <= k < stack_now.len() && stack_now[k] == a;
                                    assert(root_stack(self.roots)[k] == a);
                                }
                            }
                        } else {
                            assert(live_now.contains(target));
                            assert(!stack_now.contains(a)) by {
                                if stack_now.contains(a) {
                                    let k = choose|k: int| 0 <= k < stack_now.len() && stack_now[k] == a;
                                    assert(root_stack(self.roots)[k] == a);
                                }
                            }
                        }
                    }
                }
                index = index + 1;
            }
            proof {
                assert forall|b: usize| #[trigger] graph.contains((symbol, b)) implies members(self.live).contains(b) by {
                    broadcast use vstd::seq_lib::group_to_multiset_ensures;
                    assert(edges0.contains((symbol, b)));
                    assert(edges0.to_multiset().count((symbol, b)) > 0);
                    assert(sorted.contains((symbol, b)));
                    let k = choose|k: int| 0 <= k < sorted.len() && sorted[k] == (symbol, b);
                    if k >= index {
                        assert(index < len);
                        assert(sorted[index as int].0 != symbol);
                        assert(sorted[index as int].0 <= sorted[k].0);
                    }
                }
                assert forall|a: usize, b: usize|
                    members(self.live).contains(a) && !root_stack(self.roots).contains(a) && #[trigger] graph.contains((a, b))
                    implies members(self.live).contains(b) by {
                    if a != symbol {
                    }
                }
                let live_after = members(self.live);
                let stack_after = root_stack(self.roots);
                lemma_bounded_set_len(live_after, n);
                if live_after =~= live_before {
                    stack_after.unique_seq_to_set();
                    stack_before.unique_seq_to_set();
                    assert(stack_after.to_set().subset_of(stack_before.to_set().remove(symbol)));
                    vstd::set_lib::lemma_len_subset(stack_after.to_set(), stack_before.to_set().remove(symbol));
                } else {
                    let extra = choose|x: usize| live_after.contains(x) && !live_before.contains(x);
                    assert(live_before.subset_of(live_after.remove(extra)));
                    vstd::set_lib::lemma_len_subset(live_before, live_after.remove(extra));
                }
            }
        }
        proof {
            assert forall|x: usize| #[trigger] members(self.live).contains(x) <==> reachable(roots0, graph, x) by {
                if reachable(roots0, graph, x) {
                    let walk = choose|walk: Seq<usize>| #[trigger] is_walk(roots0, graph, walk) && walk.last() == x;
                    lemma_closed_holds_reachable(roots0, graph, members(self.live), walk);
                }
            }
        }
    }
}

/// Registered function scopes, the current candidate and dead sets, and the
/// buffers reused by `analyze`.
pub struct FunctionGraph<'a> {
    candidates: BitSet<'a>,
    function_by_scope: OwnerTable,
    dead: BitSet<'a>,
    scratch: GraphScratch<'a>,
}

impl<'a> FunctionGraph<'a> {
    /// The number of symbols the graph was created for.
    pub closed spec fn capacity(&self) -> usize {
        bitset_capacity(self.candidates)
    }

    /// The registered function declarations still under analysis.
    pub closed spec fn candidate_set(&self) -> Set<usize> {
        members(self.candidates)
    }

    /// The function declarations the last analysis found unreachable.
    pub closed spec fn dead_set(&self) -> Set<usize> {
        members(self.dead)
    }

    /// For each scope, the function declaration registered for it.
    pub closed spec fn owners(&self) -> Seq<Option<usize>> {
        owner_table(self.function_by_scope)
    }

    /// All four bit sets hold `capacity` bits, and every registered function
    /// lies below it.
    pub closed spec fn wf(&self) -> bool {
        &&& bitset_capacity(self.candidates) < id_space_limit()
        &&& bits_bounded(self.candidates)
        &&& bitset_capacity(self.dead) == bitset_capacity(self.candidates)
        &&& bits_bounded(self.dead)
        &&& bitset_capacity(self.scratch.live) == bitset_capacity(self.candidates)
        &&& self.scratch.wf(bitset_capacity(self.candidates))
        &&& forall|scope: int| #![trigger owner_table(self.function_by_scope)[scope]]
            0 <= scope < owner_table(self.function_by_scope).len() && owner_table(self.function_by_scope)[scope] is Some
                ==> owner_table(self.function_by_scope)[scope].unwrap() < bitset_capacity(self.candidates)
    }

    /// An empty graph for every symbol and scope of `scoping`.
    pub fn new(scoping: &ScopingFacts, allocator: &'a Allocator) -> (graph: Self)
        requires
            scoping.wf(),
        ensures
            graph.wf(),
            graph.capacity() == scoping.symbol_count(),
            graph.candidate_set() == Set::<usize>::empty(),
            graph.dead_set() == Set::<usize>::empty(),
            graph.owners() == Seq::new(scoping.scope_count(), |i: int| None::<usize>),
    {
        let symbols_len = scoping.symbols_len();
        let mut function_by_scope = owner_table_with_capacity(scoping.scopes_len());
        owner_table_resize(&mut function_by_scope, scoping.scopes_len());
        let graph = FunctionGraph {
            candidates: bitset_new(symbols_len, allocator),
            function_by_scope,
            dead: bitset_new(symbols_len, allocator),
            scratch: GraphScratch::new(symbols_len, allocator),
        };
        assert(members(graph.candidates) =~= Set::<usize>::empty());
        assert(members(graph.dead) =~= Set::<usize>::empty());
        assert(owner_table(graph.function_by_scope) =~= Seq::new(scoping.scope_count(), |i: int| None::<usize>));
        graph
    }

    /// Registers the function declaration `symbol` whose body is `scope`.
    pub fn register(&mut self, scope: usize, symbol: usize)
        requires
            old(self).wf(),
            scope < old(self).owners().len(),
            symbol < old(self).capacity(),
        ensures
            final(self).wf(),
            final(self).capacity() == old(self).capacity(),
            final(self).owners() == old(self).owners().update(scope as int, Some(symbol)),
            final(self).candidate_set() == old(self).candidate_set().insert(symbol),
            final(self).dead_set() == old(self).dead_set(),
    {
        owner_table_set(&mut self.function_by_scope, scope, symbol);
        bitset_set(&mut self.candidates, symbol);
        assert(members(self.candidates) =~= members(old(self).candidates).insert(symbol));
    }

    /// The number of symbols the graph was created for.
    pub fn symbol_capacity(&self) -> (capacity: usize)
        ensures
            capacity == self.capacity(),
    {
        bitset_capacity_of(&self.candidates)
    }

    /// The number of scopes the graph was created for.
    pub fn scope_capacity(&self) -> (capacity: usize)
        ensures
            capacity == self.owners().len(),
    {
        owner_table_len(&self.function_by_scope)
    }

    /// Whether the last analysis found `symbol` unreachable.
    pub fn is_dead(&self, symbol: usize) -> (dead: bool)
        ensures
            dead == self.dead_set().contains(symbol),
    {
        bitset_contains(&self.dead, symbol)
    }

    /// Whether `symbol` is still under analysis.
    pub fn is_candidate(&self, symbol: usize) -> (candidate: bool)
        ensures
            candidate == self.candidate_set().contains(symbol),
    {
        bitset_contains(&self.candidates, symbol)
    }

    /// The dead set of the last analysis.
    pub fn dead_functions(&self) -> (dead: &BitSet<'a>)
        ensures
            members(*dead) == self.dead_set(),
    {
        &self.dead
    }

    /// The function declaration that owns `scope`: the nearest registered
    /// scope on its ancestor chain.
    fn owner(&self, scoping: &ScopingFacts, scope_id: usize) -> (owner: Option<usize>)
        requires
            scoping.wf(),
            scope_id < scoping.scope_count(),
        ensures
            owner == scope_owner(*scoping, self.owners(), scope_id, scoping.scope_count()),
    {
        let ghost table = self.owners();
        let mut scope = scope_id;
        let mut fuel = scoping.scopes_len();
        loop
            invariant
                scoping.wf(),
                scope < scoping.scope_count(),
                fuel <= scoping.scope_count(),
                table == owner_table(self.function_by_scope),
                scope_owner(*scoping, table, scope_id, scoping.scope_count()) == scope_owner(
                    *scoping,
                    table,
                    scope,
                    fuel as nat,
                ),
            decreases fuel,
        {
            if fuel == 0 {
                return None;
            }
            let direct = owner_table_get(&self.function_by_scope, scope);
            if direct.is_some() {
                return direct;
            }
            match scoping.scope_parent_id(scope) {
                Some(parent) => {
                    scope = parent;
                    fuel = fuel - 1;
                },
                None => {
                    return None;
                },
            }
        }
    }

    /// Every owner found for a scope is a registered symbol below the capacity.
    proof fn lemma_owner_bounded(&self, scoping: ScopingFacts, scope: usize)
        requires
            self.wf(),
            scope_owner(scoping, self.owners(), scope, scoping.scope_count()) is Some,
        ensures
            scope_owner(scoping, self.owners(), scope, scoping.scope_count()).unwrap() < self.capacity(),
    {
        lemma_scope_owner_registered(scoping, self.owners(), scope, scoping.scope_count());
    }

    /// Follows every reference to the candidate `target`: marks it a root
    /// when a reference roots it, records an edge for each reference from
    /// another candidate's body, and reports whether any reference sits
    /// inside a function.
    fn collect_target(&mut self, scoping: &ScopingFacts, externally_observable: &BitSet, target: usize) -> (has_function_owner: bool)
        requires
            old(self).wf(),
            scoping.wf(),
            old(self).capacity() <= scoping.symbol_count(),
            old(self).candidate_set().contains(target),
            edge_list(old(self).scratch.edges).len() + scoping.references_of(target).len() <= edge_list_limit(),
            forall|x: usize| #[trigger] members(old(self).scratch.live).contains(x) ==> root_stack(old(self).scratch.roots).contains(x),
        ensures
            final(self).wf(),
            final(self).candidates == old(self).candidates,
            final(self).dead == old(self).dead,
            final(self).function_by_scope == old(self).function_by_scope,
            final(self).scratch.next_dead == old(self).scratch.next_dead,
            has_function_owner == owned_by_function(*scoping, old(self).owners(), target),
            forall|x: usize| #[trigger] members(final(self).scratch.live).contains(x) <==> (
                members(old(self).scratch.live).contains(x) || (x == target && rooted_by_reference(
                    *scoping,
                    old(self).owners(),
                    old(self).candidate_set(),
                    members(*externally_observable),
                    target,
                ))),
            forall|e: (usize, usize)| #[trigger] edge_list(final(self).scratch.edges).contains(e) <==> (
                edge_list(old(self).scratch.edges).contains(e) || (e.1 == target && first_edge(
                    *scoping,
                    old(self).owners(),
                    old(self).candidate_set(),
                    members(*externally_observable),
                    e.0,
                    e.1,
                ))),
            edge_list(final(self).scratch.edges).len() <= edge_list(old(self).scratch.edges).len()
                + scoping.references_of(target).len(),
            forall|x: usize| #[trigger] members(final(self).scratch.live).contains(x) ==> root_stack(final(self).scratch.roots).contains(x),
    {
        let ghost f = *scoping;
        let ghost table = self.owners();
        let ghost cands = self.candidate_set();
        let ghost obs = members(*externally_observable);
        let ghost live0 = members(self.scratch.live);
        let ghost edges0 = edge_list(self.scratch.edges);
        let ghost n = self.capacity();
        let refs = scoping.get_resolved_reference_ids(target);
        let mut has_function_owner = false;
        let mut i: usize = 0;
        while i < refs.len()
            invariant
                self.wf(),
                scoping.wf(),
                f == *scoping,
                n == self.capacity(),
                n <= scoping.symbol_count(),
                refs@ == f.references_of(target),
                0 <= i <= refs@.len(),
                table == self.owners(),
                cands == self.candidate_set(),
                cands.contains(target),
                obs == members(*externally_observable),
                self.candidates == old(self).candidates,
                self.dead == old(self).dead,
                self.function_by_scope == old(self).function_by_scope,
                self.scratch.next_dead == old(self).scratch.next_dead,
                edges0.len() + refs@.len() <= edge_list_limit(),
                has_function_owner == exists|j: int| 0 <= j < i && #[trigger] reference_owner(f, table, refs@[j]) is Some,
                forall|x: usize| #[trigger] members(self.scratch.live).contains(x) <==> (live0.contains(x) || (x == target
                    && exists|j: int| 0 <= j < i && #[trigger] reference_roots(f, table, cands, obs, refs@[j]))),
                forall|e: (usize, usize)| #[trigger] edge_list(self.scratch.edges).contains(e) <==> (edges0.contains(e) || (e.1
                    == target && exists|j: int| 0 <= j < i && #[trigger] reference_edge_owner(f, table, cands, obs, refs@[j]) == Some(e.0))),
                edge_list(self.scratch.edges).len() <= edges0.len() + i,
                forall|x: usize| #[trigger] members(self.scratch.live).contains(x) ==> root_stack(self.scratch.roots).contains(x),
            decreases refs@.len() - i,
        {
            let reference_id = refs[i];
            proof {
                assert(f.resolved_references@[target as int]@[i as int] == reference_id);
            }
            let reference_scope = scoping.reference_scope_id(reference_id);
            let ghost live_before = members(self.scratch.live);
            let ghost stack_before = root_stack(self.scratch.roots);
            let ghost edges_before = edge_list(self.scratch.edges);
            let owner = self.owner(scoping, reference_scope);
            match owner {
                Some(owner) => {
                    proof {
                        self.lemma_owner_bounded(f, reference_scope);
                    }
                    has_function_owner = true;
                    if !bitset_contains(&self.candidates, owner) {
                        if bitset_contains(externally_observable, owner) || !scoping.symbol_is_unused(owner) {
                            self.scratch.mark_live_root(target);
                        }
                    } else if bitset_contains(externally_observable, owner) {
                        self.scratch.mark_live_root(target);
                    } else {
                        edge_list_push(&mut self.scratch.edges, (owner, target));
                    }
                },
                None => {
                    self.scratch.mark_live_root(target);
                },
            }
            proof {
                assert(reference_owner(f, table, refs@[i as int]) == owner);
                assert forall|x: usize| #[trigger] members(self.scratch.live).contains(x) implies root_stack(self.scratch.roots).contains(x) by {
                    if live_before.contains(x) {
                        assert(stack_before.contains(x));
                        let k = choose|k: int| 0 <= k < stack_before.len() && stack_before[k] == x;
                        assert(root_stack(self.scratch.roots)[k] == x);
                    } else {
                        assert(root_stack(self.scratch.roots)[root_stack(self.scratch.roots).len() - 1] == x);
                    }
                }
                assert forall|x: usize| #[trigger] members(self.scratch.live).contains(x) <==> (live0.contains(x) || (x == target
                    && exists|j: int| 0 <= j < i + 1 && #[trigger] reference_roots(f, table, cands, obs, refs@[j]))) by {
                    if x == target && reference_roots(f, table, cands, obs, refs@[i as int]) {
                        assert(members(self.scratch.live).contains(x));
                    }
                    if x == target && exists|j: int| 0 <= j < i + 1 && #[trigger] reference_roots(f, table, cands, obs, refs@[j]) {
                        let j = choose|j: int| 0 <= j < i + 1 && #[trigger] reference_roots(f, table, cands, obs, refs@[j]);
                        if j < i {
                            assert(live_before.contains(x));
                        }
                    }
                }
                assert forall|e: (usize, usize)| #[trigger] edge_list(self.scratch.edges).contains(e) <==> (edges0.contains(e) || (e.1
                    == target && exists|j: int| 0 <= j < i + 1 && #[trigger] reference_edge_owner(f, table, cands, obs, refs@[j]) == Some(e.0))) by {
                    if e.1 == target && reference_edge_owner(f, table, cands, obs, refs@[i as int]) == Some(e.0) {
                        assert(edge_list(self.scratch.edges)[edge_list(self.scratch.edges).len() - 1] == e);
                    }
                    if edge_list(self.scratch.edges).contains(e) && !edges_before.contains(e) {
                        assert(e == (owner.unwrap(), target));
                    }
                    if e.1 == target && exists|j: int| 0 <= j < i + 1 && #[trigger] reference_edge_owner(f, table, cands, obs, refs@[j]) == Some(e.0) {
                        let j = choose|j: int| 0 <= j < i + 1 && #[trigger] reference_edge_owner(f, table, cands, obs, refs@[j]) == Some(e.0);
                        if j < i {
                            assert(edges_before.contains(e));
                            let k = choose|k: int| 0 <= k < edges_before.len() && edges_before[k] == e;
                            assert(edge_list(self.scratch.edges)[k] == e);
                        }
                    }
                    if edges_before.contains(e) {
                        let k = choose|k: int| 0 <= k < edges_before.len() && edges_before[k] == e;
                        assert(edge_list(self.scratch.edges)[k] == e);
                    }
                }
            }
            i = i + 1;
        }
        has_function_owner
    }

    /// Marks every observable candidate live.
    fn seed_observable_roots(&mut self, externally_observable: &BitSet)
        requires
            old(self).wf(),
            members(old(self).scratch.live) == Set::<usize>::empty(),
        ensures
            final(self).wf(),
            final(self).candidates == old(self).candidates,
            final(self).dead == old(self).dead,
            final(self).function_by_scope == old(self).function_by_scope,
            final(self).scratch.next_dead == old(self).scratch.next_dead,
            final(self).scratch.edges == old(self).scratch.edges,
            members(final(self).scratch.live) == old(self).candidate_set().intersect(members(*externally_observable)),
            forall|x: usize| #[trigger] members(final(self).scratch.live).contains(x) ==> root_stack(final(self).scratch.roots).contains(x),
    {
        let ghost cands = self.candidate_set();
        let observable = bitset_ones(externally_observable);
        let mut i: usize = 0;
        while i < observable.len()
            invariant
                self.wf(),
                0 <= i <= observable@.len(),
                cands == self.candidate_set(),
                self.candidates == old(self).candidates,
                self.dead == old(self).dead,
                self.function_by_scope == old(self).function_by_scope,
                self.scratch.next_dead == old(self).scratch.next_dead,
                self.scratch.edges == old(self).scratch.edges,
                forall|bit: usize| observable@.contains(bit) <==> members(*externally_observable).contains(bit),
                forall|x: usize| #[trigger] members(self.scratch.live).contains(x) <==> (cands.contains(x)
                    && exists|j: int| 0 <= j < i && observable@[j] == x),
                forall|x: usize| #[trigger] members(self.scratch.live).contains(x) ==> root_stack(self.scratch.roots).contains(x),
            decreases observable@.len() - i,
        {
            let bit = observable[i];
            let ghost live_before = members(self.scratch.live);
            let ghost stack_before = root_stack(self.scratch.roots);
            if bitset_contains(&self.candidates, bit) {
                self.scratch.mark_live_root(bit);
                proof {
                    assert forall|x: usize| #[trigger] members(self.scratch.live).contains(x) implies root_stack(self.scratch.roots).contains(x) by {
                        if live_before.contains(x) {
                            let k = choose|k: int| 0 <= k < stack_before.len() && stack_before[k] == x;
                            assert(root_stack(self.scratch.roots)[k] == x);
                        } else {
                            assert(root_stack(self.scratch.roots)[root_stack(self.scratch.roots).len() - 1] == x);
                        }
                    }
                }
            }
            proof {
                assert forall|x: usize| #[trigger] members(self.scratch.live).contains(x) <==> (cands.contains(x)
                    && exists|j: int| 0 <= j < i + 1 && observable@[j] == x) by {
                    if cands.contains(x) && exists|j: int| 0 <= j < i + 1 && observable@[j] == x {
                        let j = choose|j: int| 0 <= j < i + 1 && observable@[j] == x;
                        if j < i {
                            assert(live_before.contains(x));
                        }
                    }
                }
            }
            i = i + 1;
        }
        proof {
            assert forall|x: usize| #[trigger] members(self.scratch.live).contains(x) <==> cands.intersect(members(*externally_observable)).contains(x) by {
                if cands.contains(x) && members(*externally_observable).contains(x) {
                    assert(observable@.contains(x));
                }
            }
            assert(members(self.scratch.live) =~= cands.intersect(members(*externally_observable)));
        }
    }

    /// Follows the references to every candidate in increasing order: the
    /// first roots, the graph edges, and the candidates to drop.
    fn collect_edges(&mut self, scoping: &ScopingFacts, externally_observable: &BitSet)
        requires
            old(self).wf(),
            scoping.wf(),
            old(self).capacity() <= scoping.symbol_count(),
            members(old(self).scratch.live) == old(self).candidate_set().intersect(members(*externally_observable)),
            forall|x: usize| #[trigger] members(old(self).scratch.live).contains(x) ==> root_stack(old(self).scratch.roots).contains(x),
            edge_list(old(self).scratch.edges) == Seq::<(usize, usize)>::empty(),
            members(old(self).scratch.next_dead) == Set::<usize>::empty(),
        ensures
            final(self).wf(),
            final(self).candidates == old(self).candidates,
            final(self).dead == old(self).dead,
            final(self).function_by_scope == old(self).function_by_scope,
            members(final(self).scratch.live) == first_roots(
                *scoping,
                old(self).owners(),
                old(self).candidate_set(),
                members(*externally_observable),
            ),
            forall|e: (usize, usize)| #[trigger] edge_list(final(self).scratch.edges).contains(e) <==> first_edge(
                *scoping,
                old(self).owners(),
                old(self).candidate_set(),
                members(*externally_observable),
                e.0,
                e.1,
            ),
            members(final(self).scratch.next_dead) == dropped_candidates(
                *scoping,
                old(self).owners(),
                old(self).candidate_set(),
                old(self).dead_set(),
            ),
            forall|x: usize| #[trigger] members(final(self).scratch.live).contains(x) ==> root_stack(final(self).scratch.roots).contains(x),
    {
        let ghost f = *scoping;
        let ghost table = self.owners();
        let ghost cands = self.candidate_set();
        let ghost obs = members(*externally_observable);
        let ghost dead = self.dead_set();
        let ghost n = self.capacity();
        let candidates = bitset_ones(&self.candidates);
        let mut k: usize = 0;
        while k < candidates.len()
            invariant
                self.wf(),
                scoping.wf(),
                f == *scoping,
                n == self.capacity(),
                n <= f.symbol_count(),
                table == self.owners(),
                cands == self.candidate_set(),
                obs == members(*externally_observable),
                dead == self.dead_set(),
                self.candidates == old(self).candidates,
                self.dead == old(self).dead,
                self.function_by_scope == old(self).function_by_scope,
                0 <= k <= candidates@.len(),
                forall|i: int, j: int| 0 <= i < j < candidates@.len() ==> candidates@[i] < candidates@[j],
                forall|bit: usize| candidates@.contains(bit) <==> cands.contains(bit),
                forall|x: usize| #[trigger] members(self.scratch.live).contains(x) <==> (cands.contains(x) && (obs.contains(x)
                    || ((exists|j: int| 0 <= j < k && candidates@[j] == x) && rooted_by_reference(f, table, cands, obs, x)))),
                forall|e: (usize, usize)| #[trigger] edge_list(self.scratch.edges).contains(e) <==> ((exists|j: int| 0 <= j < k
                    && candidates@[j] == e.1) && first_edge(f, table, cands, obs, e.0, e.1)),
                forall|x: usize| #[trigger] members(self.scratch.next_dead).contains(x) <==> ((exists|j: int| 0 <= j < k
                    && candidates@[j] == x) && dropped_candidates(f, table, cands, dead).contains(x)),
                edge_list(self.scratch.edges).len() <= crate::scoping::resolved_total(
                    f.resolved_references@,
                    if k == 0 { 0 } else { candidates@[k - 1] + 1 },
                ),
                forall|x: usize| #[trigger] members(self.scratch.live).contains(x) ==> root_stack(self.scratch.roots).contains(x),
            decreases candidates@.len() - k,
        {
            let target = candidates[k];
            let ghost live_before = members(self.scratch.live);
            let ghost edges_before = edge_list(self.scratch.edges);
            let ghost dead_before = members(self.scratch.next_dead);
            proof {
                assert(candidates@.contains(target));
                assert(cands.contains(target));
                assert(target < n);
                let prev: int = if k == 0 { 0 } else { candidates@[k - 1] + 1 };
                crate::scoping::lemma_resolved_total_monotone(f.resolved_references@, prev, target as int);
                crate::scoping::lemma_resolved_total_step(f.resolved_references@, target as int);
                crate::scoping::lemma_resolved_total_monotone(f.resolved_references@, target + 1, f.symbol_count() as int);
            }
            let has_function_owner = self.collect_target(scoping, externally_observable, target);
            if !has_function_owner && !bitset_contains(&self.dead, target) {
                bitset_set(&mut self.scratch.next_dead, target);
            }
            proof {
                if !has_function_owner && !dead.contains(target) {
                    assert(members(self.scratch.next_dead) =~= dead_before.insert(target));
                    assert(dropped_candidates(f, table, cands, dead).contains(target));
                } else {
                    assert(members(self.scratch.next_dead) =~= dead_before);
                    assert(!dropped_candidates(f, table, cands, dead).contains(target));
                }
                assert forall|j: int| 0 <= j < k implies candidates@[j] != target by {}
                assert forall|x: usize| #[trigger] members(self.scratch.live).contains(x) <==> (cands.contains(x) && (obs.contains(x)
                    || ((exists|j: int| 0 <= j < k + 1 && candidates@[j] == x) && rooted_by_reference(f, table, cands, obs, x)))) by {
                    if exists|j: int| 0 <= j < k + 1 && candidates@[j] == x {
                        let j = choose|j: int| 0 <= j < k + 1 && candidates@[j] == x;
                        if j < k {
                            assert(exists|j: int| 0 <= j < k && candidates@[j] == x);
                        }
                    }
                    if x == target {
                        assert(exists|j: int| 0 <= j < k + 1 && candidates@[j] == x);
                    }
                }
                assert forall|e: (usize, usize)| #[trigger] edge_list(self.scratch.edges).contains(e) <==> ((exists|j: int| 0 <= j
                    < k + 1 && candidates@[j] == e.1) && first_edge(f, table, cands, obs, e.0, e.1)) by {
                    if exists|j: int| 0 <= j < k + 1 && candidates@[j] == e.1 {
                        let j = choose|j: int| 0 <= j < k + 1 && candidates@[j] == e.1;
                        if j < k {
                            assert(exists|j: int| 0 <= j < k && candidates@[j] == e.1);
                        }
                    }
                    if e.1 == target {
                        assert(exists|j: int| 0 <= j < k + 1 && candidates@[j] == e.1);
                    }
                }
                assert forall|x: usize| #[trigger] members(self.scratch.next_dead).contains(x) <==> ((exists|j: int| 0 <= j < k + 1
                    && candidates@[j] == x) && dropped_candidates(f, table, cands, dead).contains(x)) by {
                    if exists|j: int| 0 <= j < k + 1 && candidates@[j] == x {
                        let j = choose|j: int| 0 <= j < k + 1 && candidates@[j] == x;
                        if j < k {
                            assert(exists|j: int| 0 <= j < k && candidates@[j] == x);
                        }
                    }
                    if x == target {
                        assert(exists|j: int| 0 <= j < k + 1 && candidates@[j] == x);
                    }
                }
            }
            k = k + 1;
        }
        proof {
            assert forall|x: usize| cands.contains(x) implies exists|j: int| 0 <= j < k && candidates@[j] == x by {
                assert(candidates@.contains(x));
            }
            assert(members(self.scratch.live) =~= first_roots(f, table, cands, obs));
            assert(members(self.scratch.next_dead) =~= dropped_candidates(f, table, cands, dead));
        }
    }

    /// Roots the target of every edge whose owner is about to be dropped
    /// while something still references that owner.
    fn root_dropped_owner_edges(&mut self, scoping: &ScopingFacts)
        requires
            old(self).wf(),
            scoping.wf(),
            old(self).capacity() <= scoping.symbol_count(),
            forall|i: int| 0 <= i < edge_list(old(self).scratch.edges).len() ==> #[trigger] edge_list(old(self).scratch.edges)[i].0
                < old(self).capacity() && edge_list(old(self).scratch.edges)[i].1 < old(self).capacity(),
            forall|x: usize| #[trigger] members(old(self).scratch.live).contains(x) ==> root_stack(old(self).scratch.roots).contains(x),
        ensures
            final(self).wf(),
            final(self).candidates == old(self).candidates,
            final(self).dead == old(self).dead,
            final(self).function_by_scope == old(self).function_by_scope,
            final(self).scratch.next_dead == old(self).scratch.next_dead,
            final(self).scratch.edges == old(self).scratch.edges,
            forall|x: usize| #[trigger] members(final(self).scratch.live).contains(x) <==> (members(old(self).scratch.live).contains(x)
                || exists|i: int| 0 <= i < edge_list(old(self).scratch.edges).len()
                    && #[trigger] edge_list(old(self).scratch.edges)[i].1 == x
                    && members(old(self).scratch.next_dead).contains(edge_list(old(self).scratch.edges)[i].0)
                    && !scoping.is_unused(edge_list(old(self).scratch.edges)[i].0)),
            forall|x: usize| #[trigger] members(final(self).scratch.live).contains(x) ==> root_stack(final(self).scratch.roots).contains(x),
    {
        let ghost edges = edge_list(self.scratch.edges);
        let ghost live0 = members(self.scratch.live);
        let ghost dropped = members(self.scratch.next_dead);
        let ghost n = self.capacity();
        let len = edge_list_len(&self.scratch.edges);
        let mut index: usize = 0;
        while index < len
            invariant
                self.wf(),
                scoping.wf(),
                self.capacity() <= scoping.symbol_count(),
                self.candidates == old(self).candidates,
                self.dead == old(self).dead,
                self.function_by_scope == old(self).function_by_scope,
                self.scratch.next_dead == old(self).scratch.next_dead,
                self.scratch.edges == old(self).scratch.edges,
                edges == edge_list(self.scratch.edges),
                dropped == members(self.scratch.next_dead),
                len == edges.len(),
                0 <= index <= len,
                n == self.capacity(),
                n == bitset_capacity(self.scratch.live),
                forall|i: int| 0 <= i < edges.len() ==> #[trigger] edges[i].0 < n && edges[i].1 < n,
                forall|x: usize| #[trigger] members(self.scratch.live).contains(x) <==> (live0.contains(x) || exists|i: int|
                    0 <= i < index && #[trigger] edges[i].1 == x && dropped.contains(edges[i].0) && !scoping.is_unused(edges[i].0)),
                forall|x: usize| #[trigger] members(self.scratch.live).contains(x) ==> root_stack(self.scratch.roots).contains(x),
            decreases len - index,
        {
            let (owner, target) = edge_list_get(&self.scratch.edges, index);
            let ghost live_before = members(self.scratch.live);
            let ghost stack_before = root_stack(self.scratch.roots);
            if bitset_contains(&self.scratch.next_dead, owner) && !scoping.symbol_is_unused(owner) {
                self.scratch.mark_live_root(target);
                proof {
                    assert forall|x: usize| #[trigger] members(self.scratch.live).contains(x) implies root_stack(self.scratch.roots).contains(x) by {
                        if live_before.contains(x) {
                            let k = choose|k: int| 0 <= k < stack_before.len() && stack_before[k] == x;
                            assert(root_stack(self.scratch.roots)[k] == x);
                        } else {
                            assert(root_stack(self.scratch.roots)[root_stack(self.scratch.roots).len() - 1] == x);
                        }
                    }
                }
            }
            proof {
                assert forall|x: usize| #[trigger] members(self.scratch.live).contains(x) <==> (live0.contains(x) || exists|i: int|
                    0 <= i < index + 1 && #[trigger] edges[i].1 == x && dropped.contains(edges[i].0) && !scoping.is_unused(edges[i].0)) by {
                    if exists|i: int| 0 <= i < index + 1 && #[trigger] edges[i].1 == x && dropped.contains(edges[i].0) && !scoping.is_unused(edges[i].0) {
                        let i = choose|i: int| 0 <= i < index + 1 && #[trigger] edges[i].1 == x && dropped.contains(edges[i].0) && !scoping.is_unused(edges[i].0);
                        if i < index {
                            assert(live_before.contains(x));
                        }
                    }
                }
            }
            index = index + 1;
        }
    }

    /// Removes the dropped candidates for good, with the edges they own.
    fn drop_candidates(&mut self)
        requires
            old(self).wf(),
        ensures
            final(self).wf(),
            members(final(self).candidates) == members(old(self).candidates).difference(members(old(self).scratch.next_dead)),
            edge_list(final(self).scratch.edges) == edge_list(old(self).scratch.edges).filter(
                |edge: (usize, usize)| !members(old(self).scratch.next_dead).contains(edge.0),
            ),
            forall|e: (usize, usize)| #[trigger] edge_list(final(self).scratch.edges).contains(e) <==> (edge_list(
                old(self).scratch.edges,
            ).contains(e) && !members(old(self).scratch.next_dead).contains(e.0)),
            members(final(self).scratch.next_dead) == Set::<usize>::empty(),
            final(self).scratch.live == old(self).scratch.live,
            final(self).scratch.roots == old(self).scratch.roots,
            final(self).dead == old(self).dead,
            final(self).function_by_scope == old(self).function_by_scope,
    {
        let ghost cands = members(self.candidates);
        let ghost dropped = members(self.scratch.next_dead);
        let removed = bitset_ones(&self.scratch.next_dead);
        let mut i: usize = 0;
        while i < removed.len()
            invariant
                self.wf(),
                0 <= i <= removed@.len(),
                forall|bit: usize| removed@.contains(bit) <==> dropped.contains(bit),
                dropped == members(self.scratch.next_dead),
                bitset_capacity(self.scratch.next_dead) == bitset_capacity(self.candidates),
                self.scratch.live == old(self).scratch.live,
                self.scratch.roots == old(self).scratch.roots,
                self.scratch.edges == old(self).scratch.edges,
                self.scratch.next_dead == old(self).scratch.next_dead,
                self.dead == old(self).dead,
                self.function_by_scope == old(self).function_by_scope,
                bitset_capacity(self.candidates) == bitset_capacity(old(self).candidates),
                forall|x: usize| #[trigger] members(self.candidates).contains(x) <==> (cands.contains(x)
                    && !exists|j: int| 0 <= j < i && removed@[j] == x),
            decreases removed@.len() - i,
        {
            let bit = removed[i];
            proof {
                assert(removed@.contains(bit));
                assert(dropped.contains(bit));
                assert(bit < bitset_capacity(self.candidates));
            }
            let ghost before = members(self.candidates);
            bitset_unset(&mut self.candidates, bit);
            proof {
                assert(members(self.candidates) =~= before.remove(bit));
                assert forall|x: usize| #[trigger] members(self.candidates).contains(x) <==> (cands.contains(x)
                    && !exists|j: int| 0 <= j < i + 1 && removed@[j] == x) by {
                    if exists|j: int| 0 <= j < i + 1 && removed@[j] == x {
                        let j = choose|j: int| 0 <= j < i + 1 && removed@[j] == x;
                        if j < i {
                            assert(!before.contains(x));
                        }
                    }
                }
            }
            i = i + 1;
        }
        let ghost edges0 = edge_list(self.scratch.edges);
        edge_list_retain_owners_outside(&mut self.scratch.edges, &self.scratch.next_dead);
        proof {
            broadcast use vstd::seq_lib::group_filter_ensures;
            let pred = |edge: (usize, usize)| !dropped.contains(edge.0);
            assert(edge_list(self.scratch.edges) == edges0.filter(pred));
            assert forall|e: (usize, usize)| #[trigger] edge_list(self.scratch.edges).contains(e) <==> (edges0.contains(e)
                && !dropped.contains(e.0)) by {
                if edges0.contains(e) && !dropped.contains(e.0) {
                    let k = choose|k: int| 0 <= k < edges0.len() && edges0[k] == e;
                    edges0.lemma_filter_contains(pred, k);
                }
                if edge_list(self.scratch.edges).contains(e) {
                    edges0.lemma_filter_contains_rev(pred, e);
                    let k = choose|k: int| 0 <= k < edges0.filter(pred).len() && edges0.filter(pred)[k] == e;
                    edges0.lemma_filter_pred(pred, k);
                }
            }
        }
        bitset_clear(&mut self.scratch.next_dead);
        proof {
            assert forall|x: usize| #[trigger] members(self.candidates).contains(x) <==> cands.difference(dropped).contains(x) by {
                if dropped.contains(x) {
                    assert(removed@.contains(x));
                }
            }
            assert(members(self.candidates) =~= cands.difference(dropped));
            assert(members(self.scratch.next_dead) =~= Set::<usize>::empty());
        }
    }

    /// Publishes as dead every candidate that propagation did not reach, and
    /// reports whether any of them was not dead before.
    fn publish_dead(&mut self) -> (found_new_dead: bool)
        requires
            old(self).wf(),
            members(old(self).scratch.next_dead) == Set::<usize>::empty(),
        ensures
            final(self).wf(),
            final(self).candidates == old(self).candidates,
            final(self).function_by_scope == old(self).function_by_scope,
            members(final(self).dead) == members(old(self).candidates).difference(members(old(self).scratch.live)),
            found_new_dead == exists|t: usize| #[trigger] members(final(self).dead).contains(t) && !members(old(self).dead).contains(t),
    {
        let ghost cands = members(self.candidates);
        let ghost live = members(self.scratch.live);
        let ghost dead0 = members(self.dead);
        let remaining = bitset_ones(&self.candidates);
        let mut i: usize = 0;
        while i < remaining.len()
            invariant
                self.wf(),
                0 <= i <= remaining@.len(),
                forall|bit: usize| remaining@.contains(bit) <==> cands.contains(bit),
                cands == members(self.candidates),
                live == members(self.scratch.live),
                dead0 == members(self.dead),
                self.candidates == old(self).candidates,
                self.dead == old(self).dead,
                self.function_by_scope == old(self).function_by_scope,
                forall|x: usize| #[trigger] members(self.scratch.next_dead).contains(x) <==> (!live.contains(x)
                    && exists|j: int| 0 <= j < i && remaining@[j] == x),
            decreases remaining@.len() - i,
        {
            let bit = remaining[i];
            proof {
                assert(remaining@.contains(bit));
                assert(cands.contains(bit));
                assert(bit < bitset_capacity(self.scratch.next_dead));
            }
            let ghost before = members(self.scratch.next_dead);
            if !bitset_contains(&self.scratch.live, bit) {
                bitset_set(&mut self.scratch.next_dead, bit);
                assert(members(self.scratch.next_dead) =~= before.insert(bit));
            }
            proof {
                assert forall|x: usize| #[trigger] members(self.scratch.next_dead).contains(x) <==> (!live.contains(x)
                    && exists|j: int| 0 <= j < i + 1 && remaining@[j] == x) by {
                    if exists|j: int| 0 <= j < i + 1 && remaining@[j] == x {
                        let j = choose|j: int| 0 <= j < i + 1 && remaining@[j] == x;
                        if j < i {
                            assert(exists|j: int| 0 <= j < i && remaining@[j] == x);
                        }
                    }
                }
            }
            i = i + 1;
        }
        let ghost next = members(self.scratch.next_dead);
        proof {
            assert forall|x: usize| #[trigger] next.contains(x) <==> cands.difference(live).contains(x) by {
                if cands.contains(x) {
                    assert(remaining@.contains(x));
                }
            }
            assert(next =~= cands.difference(live));
        }
        let next_dead = bitset_ones(&self.scratch.next_dead);
        let mut found_new_dead = false;
        let mut j: usize = 0;
        while j < next_dead.len() && !found_new_dead
            invariant
                0 <= j <= next_dead@.len(),
                forall|bit: usize| next_dead@.contains(bit) <==> next.contains(bit),
                dead0 == members(self.dead),
                found_new_dead ==> exists|t: usize| #[trigger] next.contains(t) && !dead0.contains(t),
                !found_new_dead ==> forall|m: int| 0 <= m < j ==> dead0.contains(#[trigger] next_dead@[m]),
            decreases next_dead@.len() - j,
        {
            let bit = next_dead[j];
            proof {
                assert(next_dead@.contains(bit));
                assert(next.contains(bit));
            }
            if !bitset_contains(&self.dead, bit) {
                assert(!dead0.contains(bit));
                found_new_dead = true;
            }
            j = j + 1;
        }
        proof {
            if !found_new_dead {
                assert forall|t: usize| #[trigger] next.contains(t) implies dead0.contains(t) by {
                    assert(next_dead@.contains(t));
                    let m = choose|m: int| 0 <= m < next_dead@.len() && next_dead@[m] == t;
                    assert(dead0.contains(next_dead@[m]));
                }
            }
        }
        std::mem::swap(&mut self.dead, &mut self.scratch.next_dead);
        found_new_dead
    }

    /// Recomputes the dead set from the settled reference lists of `scoping`
    /// and reports whether some function became dead that was not before.
    /// While the program holds a direct `eval`, nothing is dead.
    pub fn analyze(&mut self, scoping: &ScopingFacts, externally_observable: &BitSet) -> (found_new_dead: bool)
        requires
            old(self).wf(),
            scoping.wf(),
            old(self).capacity() <= scoping.symbol_count(),
        ensures
            final(self).wf(),
            final(self).capacity() == old(self).capacity(),
            final(self).owners() == old(self).owners(),
            has_direct_eval(scoping.scope_flags@[0]) ==> {
                &&& final(self).candidate_set() == old(self).candidate_set()
                &&& final(self).dead_set() == Set::<usize>::empty()
                &&& !found_new_dead
            },
            !has_direct_eval(scoping.scope_flags@[0]) ==> {
                &&& final(self).candidate_set() == remaining_candidates(
                    *scoping,
                    old(self).owners(),
                    old(self).candidate_set(),
                    old(self).dead_set(),
                )
                &&& final(self).dead_set() == analysis_dead(
                    *scoping,
                    old(self).owners(),
                    old(self).candidate_set(),
                    members(*externally_observable),
                    old(self).dead_set(),
                )
                &&& found_new_dead == exists|t: usize| #[trigger] final(self).dead_set().contains(t)
                    && !old(self).dead_set().contains(t)
            },
    {
        if scope_flags_contains_direct_eval(scoping.root_scope_flags()) {
            bitset_clear(&mut self.dead);
            assert(members(self.dead) =~= Set::<usize>::empty());
            return false;
        }
        let ghost f = *scoping;
        let ghost table = self.owners();
        let ghost cands = self.candidate_set();
        let ghost obs = members(*externally_observable);
        let ghost dead = self.dead_set();
        let ghost n = self.capacity();
        self.scratch.reset();
        self.seed_observable_roots(externally_observable);
        self.collect_edges(scoping, externally_observable);
        let ghost edges = edge_list(self.scratch.edges);
        let ghost dropped = dropped_candidates(f, table, cands, dead);
        let ghost first = first_roots(f, table, cands, obs);
        proof {
            assert forall|i: int| 0 <= i < edges.len() implies #[trigger] edges[i].0 < n && edges[i].1 < n by {
                assert(edges.contains(edges[i]));
                assert(first_edge(f, table, cands, obs, edges[i].0, edges[i].1));
                let j = choose|j: int| 0 <= j < f.references_of(edges[i].1).len() && #[trigger] reference_edge_owner(
                    f, table, cands, obs, f.references_of(edges[i].1)[j]) == Some(edges[i].0);
                assert(cands.contains(edges[i].0));
            }
        }
        self.root_dropped_owner_edges(scoping);
        let ghost roots = analysis_roots(f, table, cands, obs, dead);
        proof {
            assert forall|x: usize| #[trigger] members(self.scratch.live).contains(x) <==> roots.contains(x) by {
                if exists|i: int| 0 <= i < edges.len() && #[trigger] edges[i].1 == x && dropped.contains(edges[i].0)
                    && !scoping.is_unused(edges[i].0) {
                    let i = choose|i: int| 0 <= i < edges.len() && #[trigger] edges[i].1 == x && dropped.contains(edges[i].0)
                        && !scoping.is_unused(edges[i].0);
                    assert(edges.contains(edges[i]));
                    assert(first_edge(f, table, cands, obs, edges[i].0, x));
                }
                if roots.contains(x) && !first.contains(x) {
                    let o = choose|o: usize| #[trigger] first_edge(f, table, cands, obs, o, x) && dropped.contains(o)
                        && !f.is_unused(o);
                    assert(edges.contains((o, x)));
                    let i = choose|i: int| 0 <= i < edges.len() && edges[i] == (o, x);
                    assert(edges[i].1 == x);
                }
            }
            assert(members(self.scratch.live) =~= roots);
        }
        self.drop_candidates();
        let ghost kept = edge_list(self.scratch.edges);
        let ghost graph = analysis_edges(f, table, cands, obs, dead);
        proof {
            broadcast use vstd::seq_lib::group_filter_ensures;
            assert(members(self.candidates) =~= remaining_candidates(f, table, cands, dead));
            assert forall|i: int| 0 <= i < kept.len() implies #[trigger] kept[i].1 < n by {
                assert(kept.contains(kept[i]));
                assert(edges.contains(kept[i]));
                let j = choose|j: int| 0 <= j < edges.len() && edges[j] == kept[i];
            }
            assert forall|e: (usize, usize)| #[trigger] edges_from(kept, members(self.candidates)).contains(e) <==> graph.contains(e) by {
                if graph.contains(e) {
                    assert(edges.contains(e));
                    let j = choose|j: int| 0 <= j < f.references_of(e.1).len() && #[trigger] reference_edge_owner(
                        f, table, cands, obs, f.references_of(e.1)[j]) == Some(e.0);
                    assert(cands.contains(e.0));
                    let k = choose|k: int| 0 <= k < edges.len() && edges[k] == e;
                    assert(kept.contains(e));
                }
                if kept.contains(e) {
                    assert(edges.contains(e));
                }
            }
            assert(edges_from(kept, members(self.candidates)) =~= graph);
        }
        self.scratch.propagate(&self.candidates);
        proof {
            assert(members(self.scratch.next_dead) =~= Set::<usize>::empty());
        }
        let found_new_dead = self.publish_dead();
        proof {
            assert(members(self.dead) =~= analysis_dead(f, table, cands, obs, dead));
        }
        found_new_dead
    }
}

} // verus!
