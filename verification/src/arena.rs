//! The arena collections of `oxc_allocator` that the analysis keeps its sets,
//! its worklist and its edge list in.
use oxc_allocator::{Allocator, ArenaVec, BitSet};
use vstd::prelude::*;

verus! {

/// The arena that every bit set and arena vector of the analysis lives in.
#[verifier::external_type_specification]
#[verifier::external_body]
pub struct ExAllocator(Allocator);

/// A fixed-capacity set of small integers, allocated in an arena.
#[verifier::external_type_specification]
#[verifier::external_body]
pub struct ExBitSet<'alloc>(BitSet<'alloc>);

/// A growable vector allocated in an arena.
#[verifier::external_type_specification]
#[verifier::external_body]
#[verifier::reject_recursive_types(T)]
pub struct ExArenaVec<'alloc, T>(ArenaVec<'alloc, T>);

/// The positions of all bits that are set in the words of a `BitSet`.
pub uninterp spec fn bitset_bits(set: BitSet) -> Set<usize>;

/// The number of bits a `BitSet` was created with (`BitSet::capacity`).
pub uninterp spec fn bitset_capacity(set: BitSet) -> usize;

/// The symbols on a worklist, bottom first.
pub uninterp spec fn root_stack(stack: ArenaVec<usize>) -> Seq<usize>;

/// The `(owner, target)` pairs of an edge list, in their order.
pub uninterp spec fn edge_list(edges: ArenaVec<(usize, usize)>) -> Seq<(usize, usize)>;

/// The members of a bit set: the set bits below its capacity.
pub open spec fn members(set: BitSet) -> Set<usize> {
    bitset_bits(set).filter(|bit: usize| bit < bitset_capacity(set))
}

/// Every set bit lies below the capacity: the bit set was only ever written
/// through `bitset_set` / `bitset_unset` / `bitset_clear`.
pub open spec fn bits_bounded(set: BitSet) -> bool {
    forall|bit: usize| #[trigger] bitset_bits(set).contains(bit) ==> bit < bitset_capacity(set)
}

/// The owners of an edge list never decrease from front to back.
pub open spec fn sorted_by_owner(edges: Seq<(usize, usize)>) -> bool {
    forall|i: int, j: int| 0 <= i <= j < edges.len() ==> #[trigger] edges[i].0 <= #[trigger] edges[j].0
}

/// The most pushes a worklist of symbols takes before `ArenaVec::push`
/// could need a buffer larger than the arena vector admits.
pub open spec fn root_stack_limit() -> int {
    0x1000_0000
}

/// The same limit for an edge list, whose items are twice as large.
pub open spec fn edge_list_limit() -> int {
    0x800_0000
}

/// `BitSet::new_in`: a set of `capacity` bits, none of them set.
#[verifier::external_body]
pub(crate) fn bitset_new<'alloc>(capacity: usize, allocator: &'alloc Allocator) -> (set: BitSet<'alloc>)
    ensures
        bitset_bits(set) == Set::<usize>::empty(),
        bitset_capacity(set) == capacity,
{
    BitSet::new_in(capacity, allocator)
}

/// `BitSet::capacity`: the number of bits the set was created with.
#[verifier::external_body]
pub(crate) fn bitset_capacity_of(set: &BitSet) -> (capacity: usize)
    ensures
        capacity == bitset_capacity(*set),
{
    set.capacity()
}

/// `BitSet::contains`: whether `bit` is below the capacity and set.
#[verifier::external_body]
pub(crate) fn bitset_contains(set: &BitSet, bit: usize) -> (r: bool)
    ensures
        r == (bit < bitset_capacity(*set) && bitset_bits(*set).contains(bit)),
{
    set.contains(bit)
}

/// `BitSet::set_bit`: sets one bit below the capacity.
#[verifier::external_body]
pub(crate) fn bitset_set(set: &mut BitSet, bit: usize)
    requires
        bit < bitset_capacity(*old(set)),
    ensures
        bitset_bits(*final(set)) == bitset_bits(*old(set)).insert(bit),
        bitset_capacity(*final(set)) == bitset_capacity(*old(set)),
{
    set.set_bit(bit);
}

/// `BitSet::unset_bit`: clears one bit below the capacity.
#[verifier::external_body]
pub(crate) fn bitset_unset(set: &mut BitSet, bit: usize)
    requires
        bit < bitset_capacity(*old(set)),
    ensures
        bitset_bits(*final(set)) == bitset_bits(*old(set)).remove(bit),
        bitset_capacity(*final(set)) == bitset_capacity(*old(set)),
{
    set.unset_bit(bit);
}

/// `BitSet::clear`: clears every bit.
#[verifier::external_body]
pub(crate) fn bitset_clear(set: &mut BitSet)
    ensures
        bitset_bits(*final(set)) == Set::<usize>::empty(),
        bitset_capacity(*final(set)) == bitset_capacity(*old(set)),
{
    set.clear();
}

/// `BitSet::ones`: the set bits below the capacity, in increasing order.
#[verifier::external_body]
pub(crate) fn bitset_ones(set: &BitSet) -> (bits: Vec<usize>)
    ensures
        forall|i: int, j: int| 0 <= i < j < bits@.len() ==> bits@[i] < bits@[j],
        forall|bit: usize| bits@.contains(bit) <==> members(*set).contains(bit),
{
    set.ones().collect()
}

/// `ArenaVec::new_in`: an empty worklist.
#[verifier::external_body]
pub(crate) fn root_stack_new<'alloc>(allocator: &'alloc Allocator) -> (stack: ArenaVec<'alloc, usize>)
    ensures
        root_stack(stack) == Seq::<usize>::empty(),
{
    ArenaVec::new_in(&allocator)
}

/// `ArenaVec::clear` on a worklist.
#[verifier::external_body]
pub(crate) fn root_stack_clear(stack: &mut ArenaVec<usize>)
    ensures
        root_stack(*final(stack)) == Seq::<usize>::empty(),
{
    stack.clear();
}

/// `ArenaVec::push` on a worklist.
#[verifier::external_body]
pub(crate) fn root_stack_push(stack: &mut ArenaVec<usize>, symbol: usize)
    requires
        root_stack(*old(stack)).len() < root_stack_limit(),
    ensures
        root_stack(*final(stack)) == root_stack(*old(stack)).push(symbol),
{
    stack.push(symbol);
}

/// `ArenaVec::pop` on a worklist: its top, if any.
#[verifier::external_body]
pub(crate) fn root_stack_pop(stack: &mut ArenaVec<usize>) -> (top: Option<usize>)
    ensures
        root_stack(*old(stack)).len() == 0 ==> top is None && root_stack(*final(stack)) == root_stack(*old(stack)),
        root_stack(*old(stack)).len() > 0 ==> top == Some(root_stack(*old(stack)).last())
            && root_stack(*final(stack)) == root_stack(*old(stack)).drop_last(),
{
    stack.pop()
}

/// `ArenaVec::new_in`: an empty edge list.
#[verifier::external_body]
pub(crate) fn edge_list_new<'alloc>(allocator: &'alloc Allocator) -> (edges: ArenaVec<'alloc, (usize, usize)>)
    ensures
        edge_list(edges) == Seq::<(usize, usize)>::empty(),
{
    ArenaVec::new_in(&allocator)
}

/// `ArenaVec::clear` on an edge list.
#[verifier::external_body]
pub(crate) fn edge_list_clear(edges: &mut ArenaVec<(usize, usize)>)
    ensures
        edge_list(*final(edges)) == Seq::<(usize, usize)>::empty(),
{
    edges.clear();
}

/// `ArenaVec::push` on an edge list.
#[verifier::external_body]
pub(crate) fn edge_list_push(edges: &mut ArenaVec<(usize, usize)>, edge: (usize, usize))
    requires
        edge_list(*old(edges)).len() < edge_list_limit(),
    ensures
        edge_list(*final(edges)) == edge_list(*old(edges)).push(edge),
{
    edges.push(edge);
}

/// `ArenaVec::len` of an edge list.
#[verifier::external_body]
pub(crate) fn edge_list_len(edges: &ArenaVec<(usize, usize)>) -> (len: usize)
    ensures
        len == edge_list(*edges).len(),
{
    edges.len()
}

/// Indexing an edge list (`ArenaVec` as `Index<usize>`).
#[verifier::external_body]
pub(crate) fn edge_list_get(edges: &ArenaVec<(usize, usize)>, index: usize) -> (edge: (usize, usize))
    requires
        index < edge_list(*edges).len(),
    ensures
        edge == edge_list(*edges)[index as int],
{
    edges[index]
}

/// Whether an edge's owner lies outside `removed` (the `retain` predicate).
pub(crate) fn edge_survives(removed: &BitSet, edge: &(usize, usize)) -> (keep: bool)
    ensures
        keep == !members(*removed).contains(edge.0),
{
    !bitset_contains(removed, edge.0)
}

/// Whether an edge's owner precedes `owner` (the `partition_point` predicate).
pub(crate) fn owner_precedes(edge: &(usize, usize), owner: usize) -> (before: bool)
    ensures
        before == (edge.0 < owner),
{
    edge.0 < owner
}

/// `ArenaVec::retain` on an edge list: keeps, in order, the edges whose owner
/// is not a member of `removed`.
#[verifier::external_body]
pub(crate) fn edge_list_retain_owners_outside(edges: &mut ArenaVec<(usize, usize)>, removed: &BitSet)
    ensures
        edge_list(*final(edges)) == edge_list(*old(edges)).filter(
            |edge: (usize, usize)| !members(*removed).contains(edge.0),
        ),
{
    edges.retain(|edge| edge_survives(removed, edge));
}

/// `slice::sort_unstable_by_key` on an edge list, keyed by the owner: the same
/// edges, ordered by owner (equal owners in no particular order).
#[verifier::external_body]
pub(crate) fn edge_list_sort_by_owner(edges: &mut ArenaVec<(usize, usize)>)
    ensures
        edge_list(*final(edges)).to_multiset() == edge_list(*old(edges)).to_multiset(),
        sorted_by_owner(edge_list(*final(edges))),
{
    edges.sort_unstable_by_key(|&(owner, _)| owner);
}

/// `slice::partition_point` on an edge list sorted by owner: the index of the
/// first edge whose owner is not below `owner`.
#[verifier::external_body]
pub(crate) fn edge_list_partition_point(edges: &ArenaVec<(usize, usize)>, owner: usize) -> (start: usize)
    requires
        sorted_by_owner(edge_list(*edges)),
    ensures
        start <= edge_list(*edges).len(),
        forall|i: int| 0 <= i < start ==> #[trigger] edge_list(*edges)[i].0 < owner,
        forall|i: int| start <= i < edge_list(*edges).len() ==> #[trigger] edge_list(*edges)[i].0 >= owner,
{
    edges.partition_point(|edge| owner_precedes(edge, owner))
}

} // verus!
