//! The scope-to-function table: an `oxc_index::IndexVec` keyed by the
//! `oxc_syntax` scope ids, holding symbol ids.
use oxc_index::IndexVec;
use oxc_syntax::{scope::ScopeId, symbol::SymbolId};
use vstd::prelude::*;

verus! {

/// A symbol id of the semantic model.
#[verifier::external_type_specification]
#[verifier::external_body]
pub struct ExSymbolId(SymbolId);

/// The table that maps the scope of each registered function declaration to
/// the declaration's symbol: an `IndexVec<ScopeId, Option<SymbolId>>`, held
/// opaquely because Verus does not take the `Idx` bound of `IndexVec`.
#[verifier::external_body]
pub struct OwnerTable {
    table: IndexVec<ScopeId, Option<SymbolId>>,
}

/// The entries of the scope-to-function table, each symbol id by its index.
pub uninterp spec fn owner_table(table: OwnerTable) -> Seq<Option<usize>>;

/// The largest index that `ScopeId::from_usize` and `SymbolId::from_usize` accept.
pub open spec fn max_id_index() -> int {
    0xFFFF_FFFE
}

/// The most entries a table is created with: its buffer stays far below
/// `isize::MAX` bytes on every target.
pub open spec fn owner_table_limit() -> int {
    0x1000_0000
}

/// The entry that a new table slot holds: no function owns the scope.
pub(crate) fn no_owner() -> (entry: Option<SymbolId>)
    ensures
        entry is None,
{
    None
}

/// `IndexVec::with_capacity`: an empty table.
#[verifier::external_body]
pub(crate) fn owner_table_with_capacity(capacity: usize) -> (table: OwnerTable)
    requires
        capacity < owner_table_limit(),
    ensures
        owner_table(table) == Seq::<Option<usize>>::empty(),
{
    OwnerTable { table: IndexVec::with_capacity(capacity) }
}

/// `IndexVec::resize_with`, filling new slots with `None`.
#[verifier::external_body]
pub(crate) fn owner_table_resize(table: &mut OwnerTable, len: usize)
    requires
        len < owner_table_limit(),
    ensures
        owner_table(*final(table)) == Seq::new(
            len as nat,
            |i: int| if i < owner_table(*old(table)).len() { owner_table(*old(table))[i] } else { None },
        ),
{
    table.table.resize_with(len, no_owner);
}

/// Writing one slot of the table (`IndexVec` as `IndexMut<ScopeId>`).
#[verifier::external_body]
pub(crate) fn owner_table_set(table: &mut OwnerTable, scope: usize, symbol: usize)
    requires
        scope < owner_table(*old(table)).len(),
        symbol <= max_id_index(),
    ensures
        owner_table(*final(table)) == owner_table(*old(table)).update(scope as int, Some(symbol)),
{
    table.table[ScopeId::from_usize(scope)] = Some(SymbolId::from_usize(symbol));
}

/// `IndexVec::len`: the number of slots of the table.
#[verifier::external_body]
pub(crate) fn owner_table_len(table: &OwnerTable) -> (len: usize)
    ensures
        len == owner_table(*table).len(),
{
    table.table.len()
}

/// `IndexVec::get`: the function that owns `scope` directly, if the slot
/// exists and holds one.
#[verifier::external_body]
pub(crate) fn owner_table_get(table: &OwnerTable, scope: usize) -> (owner: Option<usize>)
    requires
        scope <= max_id_index(),
    ensures
        owner == (if scope < owner_table(*table).len() { owner_table(*table)[scope as int] } else { None }),
{
    table.table.get(ScopeId::from_usize(scope)).copied().flatten().map(|symbol| symbol.index())
}

} // verus!
